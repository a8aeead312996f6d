//! What holds of lines, payloads and frames, said of the characters that they are made
//! of.

use crate::json::JsonView;
use crate::sse::{
    chat_chunk, complete_lines, data_frame_text, has_end_line, is_end_marker,
    lemma_lines_of_concatenation, lemma_payloads_of_concatenation, lemma_single_line_is_open,
    open_line, payload_of, payloads, sse_event_text, without_return,
};
use crate::wire::{json_text, single_line};
use vstd::prelude::*;

verus! {

/// The complete lines of a text, each with its line feed, and the open line behind them
/// make up the text; and in no line is there a line feed.
pub proof fn law_lines_make_up_the_text(data: Seq<char>)
    ensures
        complete_lines(data).map_values(|line: Seq<char>| line.push('\n')).flatten() + open_line(
            data,
        ) == data,
        !open_line(data).contains('\n'),
        forall|i: int|
            0 <= i < complete_lines(data).len() ==> !(#[trigger] complete_lines(data)[i]).contains(
                '\n',
            ),
    decreases data.len(),
{
    let end = |line: Seq<char>| line.push('\n');
    let lines = complete_lines(data);
    let rest = open_line(data);
    if data.len() == 0 {
        assert(lines.map_values(end).flatten() + rest =~= data);
    } else {
        let fewer = data.drop_last();
        law_lines_make_up_the_text(fewer);
        assert(fewer.push(data.last()) =~= data);
        let before = complete_lines(fewer);
        let open = open_line(fewer);
        if data.last() == '\n' {
            assert(lines.map_values(end) =~= before.map_values(end).push(open.push('\n')));
            before.map_values(end).lemma_flatten_push(open.push('\n'));
            assert(lines.map_values(end).flatten() + rest =~= data);
        } else {
            assert(rest =~= open.push(data.last()));
            assert(lines.map_values(end).flatten() + rest =~= data);
            assert forall|i: int| 0 <= i < rest.len() implies rest[i] != '\n' by {
                if i < open.len() {
                    assert(open.contains(open[i]));
                }
            }
        }
    }
}

/// The payloads of lines are those of each line, in order. A data line has what is behind
/// `data: ` as its payload, whatever that is but the end marker, and with or without a
/// carriage return at its end; any other line has none.
pub proof fn law_data_lines_carry_payloads(
    a: Seq<Seq<char>>,
    b: Seq<Seq<char>>,
    payload: Seq<char>,
    other: Seq<char>,
)
    requires
        !"data: "@.is_prefix_of(other),
    ensures
        payloads(a + b) == payloads(a) + payloads(b),
        payloads(seq![other]).len() == 0,
        payload == "[DONE]"@ ==> {
            &&& payloads(seq!["data: "@ + payload]).len() == 0
            &&& payloads(seq!["data: "@ + payload + "\r"@]).len() == 0
        },
        payload != "[DONE]"@ ==> {
            &&& payloads(seq!["data: "@ + payload + "\r"@]) == seq![payload]
            &&& payload.len() == 0 || payload.last() != '\r' ==> payloads(
                seq!["data: "@ + payload],
            ) == seq![payload]
        },
{
    lemma_payloads_of_concatenation(a, b);
    reveal_strlit("data: ");
    reveal_strlit("\r");
    reveal_strlit("[DONE]");
    let line = "data: "@ + payload;
    let returned = line + "\r"@;
    lemma_payloads_of_one(other);
    lemma_payloads_of_one(line);
    lemma_payloads_of_one(returned);
    if "data: "@.is_prefix_of(without_return(other)) {
        assert(other.take(6) =~= without_return(other).take(6));
        assert("data: "@.is_prefix_of(other));
    }
    assert(without_return(returned) =~= line);
    assert("data: "@.is_prefix_of(line));
    assert(line.skip(6) =~= payload);
    assert(payload.len() == 0 || payload.last() != '\r' ==> without_return(line) == line);
}

/// The payloads of one line.
proof fn lemma_payloads_of_one(line: Seq<char>)
    ensures
        payloads(seq![line]) == match payload_of(line) {
            Some(payload) => seq![payload],
            None => Seq::empty(),
        },
{
    reveal_with_fuel(payloads, 2);
    assert(seq![line].drop_last() =~= Seq::empty());
    assert(seq![line].last() == line);
    assert(payloads(seq![line]) =~= match payload_of(line) {
        Some(payload) => seq![payload],
        None => Seq::empty(),
    });
}

/// The end of a stream is marked by one line, with or without a carriage return at its
/// end, and by nothing that merely holds it.
pub proof fn law_end_marker_is_a_whole_line(line: Seq<char>)
    ensures
        is_end_marker(line) <==> line == "data: [DONE]"@ || line == "data: [DONE]"@ + "\r"@,
{
    reveal_strlit("data: [DONE]");
    reveal_strlit("\r");
    if line.len() > 0 && line.last() == '\r' {
        assert(line =~= line.drop_last() + "\r"@);
        if line == "data: [DONE]"@ + "\r"@ {
            assert(line.drop_last() =~= "data: [DONE]"@);
        }
        assert("data: [DONE]"@[11] == ']');
    }
    assert(("data: [DONE]"@ + "\r"@).last() == '\r');
}

/// An end marker that stands on a line of its own is found wherever it is: as the last
/// line, without a line feed, or with one and anything behind it.
pub proof fn law_end_lines_are_found_anywhere(before: Seq<char>, after: Seq<char>)
    requires
        open_line(before) == Seq::<char>::empty(),
    ensures
        has_end_line(before + "data: [DONE]"@),
        has_end_line(before + "data: [DONE]\n"@ + after),
{
    reveal_strlit("data: [DONE]");
    reveal_strlit("data: [DONE]\n");
    let marker = "data: [DONE]"@;
    lemma_single_line_is_open(marker);
    assert(without_return(marker) == marker);
    lemma_lines_of_concatenation(before, marker);
    assert(Seq::<char>::empty() + marker =~= marker);
    assert(is_end_marker(open_line(before + marker)));
    let whole = before + "data: [DONE]\n"@;
    assert(whole.drop_last() =~= before + marker);
    let lines = complete_lines(whole);
    assert(lines.last() == marker);
    assert(is_end_marker(lines[lines.len() - 1]));
    lemma_lines_of_concatenation(whole, after);
    let all = complete_lines(whole + after);
    assert(all[lines.len() - 1] == marker);
    assert(is_end_marker(all[lines.len() - 1]));
}

/// A framed event is three lines: its name, its data and an empty one.
pub proof fn law_events_are_three_lines(event: Seq<char>, data: JsonView)
    requires
        single_line(event),
        single_line(json_text(data)),
    ensures
        complete_lines(sse_event_text(event, data)) == seq![
            "event: "@ + event,
            "data: "@ + json_text(data),
            Seq::empty(),
        ],
        open_line(sse_event_text(event, data)) == Seq::<char>::empty(),
{
    reveal_strlit("event: ");
    reveal_strlit("data: ");
    reveal_strlit("\ndata: ");
    reveal_strlit("\n\n");
    let name = "event: "@ + event;
    let line = "data: "@ + json_text(data);
    let head = name.push('\n');
    let frame = sse_event_text(event, data);
    assert(single_line(name));
    assert(single_line(line));
    lemma_single_line_is_open(name);
    lemma_single_line_is_open(line);
    assert(head.drop_last() =~= name);
    assert(complete_lines(head) =~= seq![name]);
    assert(open_line(head) =~= Seq::empty());
    let tail = data_frame_text(json_text(data));
    assert(frame =~= head + tail);
    lemma_lines_of_concatenation(head, tail);
    assert(Seq::<char>::empty() + tail =~= tail);
    assert(tail.drop_last() =~= line.push('\n'));
    assert(tail.drop_last().drop_last() =~= line);
    reveal_with_fuel(complete_lines, 3);
    reveal_with_fuel(open_line, 3);
    assert(complete_lines(tail) =~= seq![line, Seq::empty()]);
    assert(complete_lines(frame) =~= seq![name, line, Seq::empty()]);
}

/// A chunk of a completion names the completion, its model and its time, and has one
/// choice, with the given delta, and with the reason why it ended or null.
pub proof fn law_chunks_carry_their_fields(
    id: Seq<char>,
    model: Seq<char>,
    created: int,
    delta: JsonView,
    finish_reason: Option<Seq<char>>,
)
    ensures
        ({
            let chunk = chat_chunk(id, model, created, delta, finish_reason);
            let choices = chunk.field_array("choices"@)->0;
            &&& chunk.field_text("id"@) == Some(id)
            &&& chunk.field_text("object"@) == Some("chat.completion.chunk"@)
            &&& chunk.field("created"@) == Some(JsonView::Integer(created))
            &&& chunk.field_text("model"@) == Some(model)
            &&& chunk.field_array("choices"@) is Some
            &&& choices.len() == 1
            &&& choices[0].field("index"@) == Some(JsonView::Integer(0))
            &&& choices[0].field("delta"@) == Some(delta)
            &&& choices[0].field("finish_reason"@) == Some(
                match finish_reason {
                    Some(reason) => JsonView::Text(reason),
                    None => JsonView::Null,
                },
            )
        }),
{
    reveal_strlit("id");
    reveal_strlit("object");
    reveal_strlit("created");
    reveal_strlit("model");
    reveal_strlit("choices");
    reveal_strlit("index");
    reveal_strlit("delta");
    reveal_strlit("finish_reason");
    assert("id"@.len() == 2 && "object"@.len() == 6 && "created"@.len() == 7);
    assert("model"@.len() == 5 && "choices"@.len() == 7 && "index"@.len() == 5);
    assert("delta"@.len() == 5 && "finish_reason"@.len() == 13);
    assert("created"@[1] == 'r' && "choices"@[1] == 'h');
    assert("index"@[0] == 'i' && "delta"@[0] == 'd');
}

} // verus!
