//! Server-sent events: cutting a byte stream into payloads, and framing JSON
//! as events.

use crate::json::{array_of, no_entries, put, text, Json, JsonView};
use crate::text::{chars_of, str_eq, string_of, views};
use crate::wire::{is_faithful, json_text, parsed_text, single_line, to_text};
use vstd::prelude::*;
use vstd::string::StringExecFns;

verus! {

/// The lines of a text that are complete, each without its line feed.
pub open spec fn complete_lines(data: Seq<char>) -> Seq<Seq<char>>
    decreases data.len(),
{
    if data.len() == 0 {
        Seq::empty()
    } else if data.last() == '\n' {
        complete_lines(data.drop_last()).push(open_line(data.drop_last()))
    } else {
        complete_lines(data.drop_last())
    }
}

/// What follows the last line feed of a text.
pub open spec fn open_line(data: Seq<char>) -> Seq<char>
    decreases data.len(),
{
    if data.len() == 0 || data.last() == '\n' {
        Seq::empty()
    } else {
        open_line(data.drop_last()).push(data.last())
    }
}

/// A line without the carriage return at its end, if it has one there.
pub open spec fn without_return(line: Seq<char>) -> Seq<char> {
    if line.len() > 0 && line.last() == '\r' {
        line.drop_last()
    } else {
        line
    }
}

/// The payload of a data line; the end marker carries none.
pub open spec fn payload_of(line: Seq<char>) -> Option<Seq<char>> {
    let body = without_return(line);
    if "data: "@.is_prefix_of(body) && body.skip("data: "@.len() as int) != "[DONE]"@ {
        Some(body.skip("data: "@.len() as int))
    } else {
        None
    }
}

/// The payloads of a list of lines, in order.
pub open spec fn payloads(lines: Seq<Seq<char>>) -> Seq<Seq<char>>
    decreases lines.len(),
{
    if lines.len() == 0 {
        Seq::empty()
    } else {
        match payload_of(lines.last()) {
            Some(payload) => payloads(lines.drop_last()).push(payload),
            None => payloads(lines.drop_last()),
        }
    }
}

/// Is a line the one that marks the end of a stream?
pub open spec fn is_end_marker(line: Seq<char>) -> bool {
    without_return(line) == "data: [DONE]"@
}

/// Is one of the lines the one that marks the end of a stream?
pub open spec fn marks_end(lines: Seq<Seq<char>>) -> bool {
    exists|i: int| 0 <= i < lines.len() && is_end_marker(#[trigger] lines[i])
}

/// Does a text hold a line that marks the end of a stream, be it the last one,
/// without a line feed?
pub open spec fn has_end_line(text: Seq<char>) -> bool {
    marks_end(complete_lines(text)) || is_end_marker(open_line(text))
}

/// Is a line the one that marks the end of a stream?
pub fn is_end_line(line: &str) -> (b: bool)
    ensures
        b == is_end_marker(line@),
{
    let chars = chars_of(line);
    let n: usize = chars.len();
    if n > 0 && chars[n - 1] == '\r' {
        let body = string_of(&chars, 0, n - 1);
        assert(body@ =~= without_return(line@));
        str_eq(body.as_str(), "data: [DONE]")
    } else {
        str_eq(line, "data: [DONE]")
    }
}

/// Does a complete line of a text mark the end of a stream?
pub fn holds_end_marker(data: &str) -> (b: bool)
    ensures
        b == marks_end(complete_lines(data@)),
{
    let chars = chars_of(data);
    let mut found = false;
    let mut start: usize = 0;
    let mut i: usize = 0;
    while i < chars.len()
        invariant
            start <= i <= chars@.len(),
            found == marks_end(complete_lines(chars@.take(i as int))),
            chars@.subrange(start as int, i as int) == open_line(chars@.take(i as int)),
        decreases chars@.len() - i,
    {
        let ghost next = chars@.take(i + 1);
        let ghost seen = complete_lines(chars@.take(i as int));
        assert(next.drop_last() =~= chars@.take(i as int));
        if chars[i] == '\n' {
            let line = string_of(&chars, start, i);
            proof {
                let lines = complete_lines(next);
                assert(lines =~= seen.push(line@));
                assert(lines[lines.len() - 1] == line@);
                assert forall|k: int| 0 <= k < seen.len() implies lines[k] == #[trigger] seen[k] by {}
                if marks_end(seen) {
                    let k = choose|k: int| 0 <= k < seen.len() && is_end_marker(#[trigger] seen[k]);
                    assert(is_end_marker(lines[k]));
                }
            }
            if is_end_line(line.as_str()) {
                found = true;
            }
            start = i + 1;
            assert(chars@.subrange(start as int, i + 1) =~= Seq::empty());
        } else {
            assert(chars@.subrange(start as int, i + 1) =~= chars@.subrange(
                start as int,
                i as int,
            ).push(chars@[i as int]));
        }
        i += 1;
    }
    assert(chars@.take(i as int) =~= chars@);
    found
}

/// The payload of the line `chars[from..to]`.
fn line_payload(chars: &Vec<char>, from: usize, to: usize) -> (payload: Option<String>)
    requires
        from <= to <= chars@.len(),
    ensures
        match payload {
            Some(p) => payload_of(chars@.subrange(from as int, to as int)) == Some(p@),
            None => payload_of(chars@.subrange(from as int, to as int)) is None,
        },
{
    let ghost line = chars@.subrange(from as int, to as int);
    let mut end: usize = to;
    if from < to && chars[to - 1] == '\r' {
        end = to - 1;
    }
    let ghost body = chars@.subrange(from as int, end as int);
    assert(body =~= without_return(line));
    let prefix = chars_of("data: ");
    let n: usize = prefix.len();
    if end - from < n {
        return None;
    }
    let head = string_of(chars, from, from + n);
    if !str_eq(head.as_str(), "data: ") {
        assert(head@ =~= body.take(n as int));
        return None;
    }
    let rest = string_of(chars, from + n, end);
    assert(head@ =~= body.take(n as int));
    assert(rest@ =~= body.skip(n as int));
    if str_eq(rest.as_str(), "[DONE]") {
        None
    } else {
        Some(rest)
    }
}

/// Cuts a chunk of an event stream into its complete `data: ...` payloads. A
/// trailing line that is not complete yet is kept in `carry`, in front of which
/// the next chunk is continued.
pub fn extract_sse_payloads(chunk: &str, carry: &mut String) -> (out: Vec<String>)
    ensures
        views(out@) == payloads(complete_lines(old(carry)@ + chunk@)),
        final(carry)@ == open_line(old(carry)@ + chunk@),
{
    carry.append(chunk);
    let chars = chars_of(carry.as_str());
    let mut out: Vec<String> = Vec::new();
    let mut start: usize = 0;
    let mut i: usize = 0;
    assert(views(out@) =~= Seq::empty());
    while i < chars.len()
        invariant
            start <= i <= chars@.len(),
            views(out@) == payloads(complete_lines(chars@.take(i as int))),
            chars@.subrange(start as int, i as int) == open_line(chars@.take(i as int)),
        decreases chars@.len() - i,
    {
        let ghost next = chars@.take(i + 1);
        assert(next.drop_last() =~= chars@.take(i as int));
        if chars[i] == '\n' {
            let ghost lines = complete_lines(next);
            assert(lines.drop_last() =~= complete_lines(chars@.take(i as int)));
            let ghost before = out@;
            match line_payload(&chars, start, i) {
                Some(payload) => {
                    out.push(payload);
                    assert(views(out@) =~= views(before).push(payload@));
                },
                None => {},
            }
            start = i + 1;
            assert(chars@.subrange(start as int, i + 1) =~= Seq::empty());
        } else {
            assert(chars@.subrange(start as int, i + 1) =~= chars@.subrange(
                start as int,
                i as int,
            ).push(chars@[i as int]));
        }
        i += 1;
    }
    assert(chars@.take(i as int) =~= chars@);
    *carry = string_of(&chars, start, chars.len());
    out
}

/// A data line that holds `payload`, and the empty line that ends the event.
pub open spec fn data_frame_text(payload: Seq<char>) -> Seq<char> {
    "data: "@ + payload + "\n\n"@
}

/// A named event with one data line.
pub open spec fn sse_event_text(event: Seq<char>, data: JsonView) -> Seq<char> {
    "event: "@ + event + "\ndata: "@ + json_text(data) + "\n\n"@
}

/// Is `payload` all that a reader of the frame gets, with nothing left over?
pub open spec fn reads_back(frame: Seq<char>, payload: Seq<char>) -> bool {
    &&& payloads(complete_lines(frame)) == seq![payload]
    &&& open_line(frame) == Seq::<char>::empty()
}

/// Frames a JSON value as an unnamed event. A reader of the frame gets the
/// text of an object back, and reads the object from it where it can be read back
/// at all.
pub fn data_frame(data: &Json) -> (frame: String)
    ensures
        frame@ == data_frame_text(json_text(data@)),
        data@ is Object ==> reads_back(frame@, json_text(data@)),
        is_faithful(data@) ==> parsed_text(json_text(data@)) == Some(data@),
{
    let payload = to_text(data);
    proof {
        reveal_strlit("[DONE]");
        law_frame_is_read_back(payload@);
    }
    "data: ".to_owned().concat(payload.as_str()).concat("\n\n")
}

/// The event that ends a stream.
pub fn done_frame() -> (frame: String)
    ensures
        frame@ == data_frame_text("[DONE]"@),
{
    "data: ".to_owned().concat("[DONE]").concat("\n\n")
}

/// Frames a JSON value as an event with a name. A reader of the frame gets the
/// text of an object back, if the name stands on one line.
pub fn sse_event(event: &str, data: &Json) -> (frame: String)
    ensures
        frame@ == sse_event_text(event@, data@),
        data@ is Object && single_line(event@) ==> reads_back(frame@, json_text(data@)),
        is_faithful(data@) ==> parsed_text(json_text(data@)) == Some(data@),
{
    let payload = to_text(data);
    proof {
        reveal_strlit("[DONE]");
        if single_line(event@) && data@ is Object {
            lemma_event_is_read_back(event@, payload@);
        }
    }
    "event: ".to_owned().concat(event).concat("\ndata: ").concat(payload.as_str()).concat("\n\n")
}

/// The JSON string of an optional text, or null.
pub open spec fn optional_text(s: Option<Seq<char>>) -> JsonView {
    match s {
        Some(s) => JsonView::Text(s),
        None => JsonView::Null,
    }
}

/// One chunk of a streamed chat completion, as JSON.
pub open spec fn chat_chunk(
    id: Seq<char>,
    model: Seq<char>,
    created: int,
    delta: JsonView,
    finish_reason: Option<Seq<char>>,
) -> JsonView {
    JsonView::Object(
        map![
            "id"@ => JsonView::Text(id),
            "object"@ => JsonView::Text("chat.completion.chunk"@),
            "created"@ => JsonView::Integer(created),
            "model"@ => JsonView::Text(model),
            "choices"@ => JsonView::Array(seq![JsonView::Object(
                map![
                    "index"@ => JsonView::Integer(0),
                    "delta"@ => delta,
                    "finish_reason"@ => optional_text(finish_reason),
                ],
            )]),
        ],
    )
}

/// The view of an optional string slice.
pub open spec fn str_view(s: Option<&str>) -> Option<Seq<char>> {
    match s {
        Some(s) => Some(s@),
        None => None,
    }
}

/// Frames one chunk of a streamed chat completion.
pub fn make_chat_chunk(
    id: &str,
    model: &str,
    created: i64,
    delta: Json,
    finish_reason: Option<&str>,
) -> (frame: String)
    ensures
        frame@ == data_frame_text(
            json_text(chat_chunk(id@, model@, created as int, delta@, str_view(finish_reason))),
        ),
        reads_back(
            frame@,
            json_text(chat_chunk(id@, model@, created as int, delta@, str_view(finish_reason))),
        ),
{
    let reason = match finish_reason {
        Some(s) => text(s),
        None => Json::Null,
    };
    let mut choice = no_entries();
    put(&mut choice, "index", Json::Unsigned(0));
    put(&mut choice, "delta", delta);
    put(&mut choice, "finish_reason", reason);
    let mut choices: Vec<Json> = Vec::new();
    choices.push(Json::Object(choice));
    let mut chunk = no_entries();
    put(&mut chunk, "id", text(id));
    put(&mut chunk, "object", text("chat.completion.chunk"));
    put(&mut chunk, "created", Json::Negative(created));
    put(&mut chunk, "model", text(model));
    let ghost list = choices@;
    put(&mut chunk, "choices", array_of(choices));
    proof {
        let choice_view = chat_chunk(id@, model@, created as int, delta@, str_view(finish_reason));
        assert(crate::json::json_views(list) =~= choice_view->Object_0["choices"@]->Array_0);
    }
    data_frame(&Json::Object(chunk))
}

/// Appending to a text continues its open line: the lines completed by then
/// stay, and the rest comes from the open line and what was appended.
pub proof fn lemma_lines_of_concatenation(x: Seq<char>, y: Seq<char>)
    ensures
        complete_lines(x + y) == complete_lines(x) + complete_lines(open_line(x) + y),
        open_line(x + y) == open_line(open_line(x) + y),
    decreases y.len(),
{
    if y.len() == 0 {
        assert(x + y =~= x);
        assert(open_line(x) + y =~= open_line(x));
        lemma_open_line_is_open(x);
    } else {
        let z = y.drop_last();
        lemma_lines_of_concatenation(x, z);
        assert((x + y).drop_last() =~= x + z);
        assert((open_line(x) + y).drop_last() =~= open_line(x) + z);
        assert(complete_lines(x + y) =~= complete_lines(x) + complete_lines(open_line(x) + y));
    }
}

/// An open line holds no complete line, and is its own open line.
pub proof fn lemma_open_line_is_open(x: Seq<char>)
    ensures
        complete_lines(open_line(x)) == Seq::<Seq<char>>::empty(),
        open_line(open_line(x)) == open_line(x),
    decreases x.len(),
{
    if x.len() > 0 && x.last() != '\n' {
        lemma_open_line_is_open(x.drop_last());
        assert(open_line(x).drop_last() =~= open_line(x.drop_last()));
    }
}

/// The payloads of two lists of lines in a row.
pub proof fn lemma_payloads_of_concatenation(a: Seq<Seq<char>>, b: Seq<Seq<char>>)
    ensures
        payloads(a + b) == payloads(a) + payloads(b),
    decreases b.len(),
{
    if b.len() == 0 {
        assert(a + b =~= a);
        assert(payloads(a) + payloads(b) =~= payloads(a));
    } else {
        lemma_payloads_of_concatenation(a, b.drop_last());
        assert((a + b).drop_last() =~= a + b.drop_last());
        assert(payloads(a + b) =~= payloads(a) + payloads(b));
    }
}

/// Where a stream is cut into chunks makes no difference: the payloads of two
/// chunks, taken one after the other, are those of the two in one piece, and
/// what is carried over is the same.
pub proof fn law_chunk_boundaries_do_not_matter(carry: Seq<char>, first: Seq<char>, second: Seq<char>)
    ensures
        payloads(complete_lines(carry + (first + second))) == payloads(
            complete_lines(carry + first),
        ) + payloads(complete_lines(open_line(carry + first) + second)),
        open_line(carry + (first + second)) == open_line(open_line(carry + first) + second),
{
    assert(carry + (first + second) =~= (carry + first) + second);
    lemma_lines_of_concatenation(carry + first, second);
    lemma_payloads_of_concatenation(
        complete_lines(carry + first),
        complete_lines(open_line(carry + first) + second),
    );
}

/// An end marker is found wherever a stream is cut into chunks: two chunks hold one
/// in their complete lines exactly when the first does, or the second behind what
/// is carried over.
pub proof fn law_end_marker_is_found_across_chunks(
    carry: Seq<char>,
    first: Seq<char>,
    second: Seq<char>,
)
    ensures
        marks_end(complete_lines(carry + (first + second))) == (marks_end(
            complete_lines(carry + first),
        ) || marks_end(complete_lines(open_line(carry + first) + second))),
{
    assert(carry + (first + second) =~= (carry + first) + second);
    lemma_lines_of_concatenation(carry + first, second);
    let a = complete_lines(carry + first);
    let b = complete_lines(open_line(carry + first) + second);
    let all = a + b;
    if marks_end(all) {
        let i = choose|i: int| 0 <= i < all.len() && is_end_marker(#[trigger] all[i]);
        if i < a.len() {
            assert(is_end_marker(a[i]));
        } else {
            assert(is_end_marker(b[i - a.len()]));
        }
    }
    if marks_end(a) {
        let i = choose|i: int| 0 <= i < a.len() && is_end_marker(#[trigger] a[i]);
        assert(is_end_marker(all[i]));
    }
    if marks_end(b) {
        let i = choose|i: int| 0 <= i < b.len() && is_end_marker(#[trigger] b[i]);
        assert(is_end_marker(all[a.len() + i]));
    }
}

/// A text without a line feed is one open line.
pub proof fn lemma_single_line_is_open(x: Seq<char>)
    requires
        single_line(x),
    ensures
        complete_lines(x) == Seq::<Seq<char>>::empty(),
        open_line(x) == x,
    decreases x.len(),
{
    if x.len() > 0 {
        assert(single_line(x.drop_last()));
        lemma_single_line_is_open(x.drop_last());
        assert(open_line(x) =~= x);
    }
}

/// A framed payload on one line is read back as it was written, with nothing
/// left over; only the end marker yields no payload.
pub proof fn law_frame_is_read_back(payload: Seq<char>)
    requires
        single_line(payload),
    ensures
        payload != "[DONE]"@ ==> payloads(complete_lines(data_frame_text(payload))) == seq![payload],
        payload == "[DONE]"@ ==> payloads(complete_lines(data_frame_text(payload)))
            == Seq::<Seq<char>>::empty(),
        open_line(data_frame_text(payload)) == Seq::<char>::empty(),
{
    reveal_strlit("data: ");
    reveal_strlit("\n\n");
    let line = "data: "@ + payload;
    let frame = data_frame_text(payload);
    assert(single_line(line));
    lemma_single_line_is_open(line);
    assert(frame.drop_last() =~= line.push('\n'));
    assert(frame.drop_last().drop_last() =~= line);
    let lines = complete_lines(frame);
    reveal_with_fuel(complete_lines, 3);
    reveal_with_fuel(open_line, 3);
    assert(lines =~= seq![line, Seq::empty()]);
    assert(lines.drop_last() =~= seq![line]);
    assert(seq![line].drop_last() =~= Seq::empty());
    assert(without_return(line) == line) by {
        if payload.len() == 0 {
            assert(line.last() == ' ');
        }
    }
    assert(line.skip("data: "@.len() as int) =~= payload);
    assert(line.take("data: "@.len() as int) =~= "data: "@);
    assert("data: "@.is_prefix_of(line));
    assert(payload_of(Seq::empty()) is None);
    reveal_with_fuel(payloads, 3);
    if payload != "[DONE]"@ {
        assert(payloads(lines) =~= seq![payload]);
    }
}

/// The line with an event's name yields no payload, so the event is read back
/// as its data line is.
proof fn lemma_event_is_read_back(event: Seq<char>, payload: Seq<char>)
    requires
        single_line(event),
        single_line(payload),
        payload != "[DONE]"@,
    ensures
        reads_back("event: "@ + event + "\ndata: "@ + payload + "\n\n"@, payload),
{
    reveal_strlit("event: ");
    reveal_strlit("data: ");
    reveal_strlit("\ndata: ");
    let name = "event: "@ + event;
    let head = name.push('\n');
    let frame = "event: "@ + event + "\ndata: "@ + payload + "\n\n"@;
    assert(frame =~= head + data_frame_text(payload));
    assert(single_line(name));
    lemma_single_line_is_open(name);
    assert(head.drop_last() =~= name);
    reveal_with_fuel(complete_lines, 2);
    assert(complete_lines(head) =~= seq![name]);
    assert(open_line(head) =~= Seq::empty());
    lemma_lines_of_concatenation(head, data_frame_text(payload));
    assert(Seq::<char>::empty() + data_frame_text(payload) =~= data_frame_text(payload));
    lemma_payloads_of_concatenation(seq![name], complete_lines(data_frame_text(payload)));
    law_frame_is_read_back(payload);
    assert(payload_of(name) is None) by {
        assert(without_return(name)[0] == 'e');
        assert("data: "@[0] == 'd');
    }
    assert(seq![name].drop_last() =~= Seq::empty());
    reveal_with_fuel(payloads, 2);
    assert(payloads(seq![name]) =~= Seq::empty());
    assert(payloads(complete_lines(frame)) =~= seq![payload]);
}

} // verus!
