//! What is asked of the model server when a trace has to be cut short, and how
//! its replies are read.

use crate::anthropic::{string_view, with_field};
use crate::json::{json_views, no_entries, object_view, put, text, text_view, Json, JsonView};
use crate::tracker::{snippet, snippet_of};
use vstd::prelude::*;
use vstd::string::StringExecFns;

verus! {

/// The nudge with which a repetitive thought is closed.
pub const LOOP_NUDGE_PREFIX: &'static str =
    "\n\n(loop-guard: repetition detected - you were restating an earlier \
     point instead of making progress. Stop analyzing further and commit \
     to your best answer now, using whatever you've already found.)\n";

/// How many tokens a continuation may have where the request sets no limit.
pub const DEFAULT_PREDICT: i64 = 4096;

/// The first choice of a completion chunk, or null.
pub open spec fn first_choice(chunk: JsonView) -> JsonView {
    chunk.at("choices"@).nth(0)
}

/// What a completion chunk adds.
pub open spec fn delta_of(chunk: JsonView) -> JsonView {
    first_choice(chunk).at("delta"@)
}

/// The text that a delta adds to the trace: the thought, or else what is said.
pub open spec fn trace_piece(delta: JsonView) -> Seq<char> {
    match delta.field_text("reasoning_content"@) {
        Some(thought) => thought,
        None => delta.text_or("content"@, Seq::empty()),
    }
}

/// Why a completion ended, if the chunk says so.
pub open spec fn finish_reason_of(chunk: JsonView) -> Option<Seq<char>> {
    first_choice(chunk).field_text("finish_reason"@)
}

/// The text that a delta adds to the trace.
pub fn trace_piece_of(delta: &Json) -> (piece: String)
    ensures
        piece@ == trace_piece(delta@),
{
    match delta.get_str("reasoning_content") {
        Some(thought) => thought.to_owned(),
        None => match delta.get_str("content") {
            Some(said) => said.to_owned(),
            None => String::new(),
        },
    }
}

/// The first choice of a completion chunk.
fn choice_in(chunk: &Json) -> (choice: Option<&Json>)
    ensures
        match choice {
            Some(choice) => first_choice(chunk@) == choice@,
            None => first_choice(chunk@) == JsonView::Null,
        },
{
    match chunk.get("choices") {
        Some(choices) => choices.get_index(0),
        None => None,
    }
}

/// What a completion chunk adds.
pub fn delta_in(chunk: &Json) -> (delta: Json)
    ensures
        delta@ == delta_of(chunk@),
{
    match choice_in(chunk) {
        Some(choice) => match choice.get("delta") {
            Some(delta) => delta.duplicate(),
            None => Json::Null,
        },
        None => Json::Null,
    }
}

/// Why a completion ended, if the chunk says so.
pub fn finish_reason_in(chunk: &Json) -> (reason: Option<String>)
    ensures
        string_view(reason) == finish_reason_of(chunk@),
{
    match choice_in(chunk) {
        Some(choice) => match choice.get_str("finish_reason") {
            Some(reason) => Some(reason.to_owned()),
            None => None,
        },
        None => None,
    }
}

/// The slots that are processing something.
pub open spec fn busy_slots(slots: Seq<JsonView>) -> Seq<JsonView> {
    slots.filter(|slot: JsonView| slot.flag("is_processing"@))
}

/// The id of the one slot that is processing something; none if no slot or more
/// than one is.
pub open spec fn processing_slot(slots: JsonView) -> Option<i64> {
    match slots.array() {
        Some(slots) => if busy_slots(slots).len() == 1 {
            match busy_slots(slots)[0].field("id"@) {
                Some(id) => id.signed(),
                None => None,
            }
        } else {
            None
        },
        None => None,
    }
}

/// Reads from a list of slots which one is processing something. If none or more
/// than one is, the answer is ambiguous, and it is safer to name no slot than to
/// take the cache of an unrelated request.
pub fn current_processing_slot(slots: &Json) -> (id: Option<i64>)
    ensures
        id == processing_slot(slots@),
{
    let Some(list) = slots.as_array() else {
        return None;
    };
    let ghost all = json_views(list@);
    let ghost busy = |slot: JsonView| slot.flag("is_processing"@);
    let mut found: Option<usize> = None;
    let mut several = false;
    let mut i: usize = 0;
    proof {
        reveal(Seq::filter);
    }
    while i < list.len()
        invariant
            all == json_views(list@),
            busy == (|slot: JsonView| slot.flag("is_processing"@)),
            i <= list@.len(),
            several == (all.take(i as int).filter(busy).len() > 1),
            match found {
                Some(k) => k < list@.len() && all.take(i as int).filter(busy).len() > 0 && all[k as int]
                    == all.take(i as int).filter(busy)[0],
                None => all.take(i as int).filter(busy).len() == 0,
            },
        decreases list@.len() - i,
    {
        proof {
            reveal(Seq::filter);
            assert(all.take(i + 1).drop_last() =~= all.take(i as int));
            assert(all.take(i + 1).last() == list@[i as int]@);
        }
        if list[i].get_flag("is_processing") {
            if found.is_some() {
                several = true;
            } else {
                found = Some(i);
            }
        }
        i += 1;
    }
    assert(all.take(i as int) =~= all);
    if several {
        return None;
    }
    match found {
        Some(k) => match list[k].get("id") {
            Some(id) => id.as_i64(),
            None => None,
        },
        None => None,
    }
}

/// The request to render a conversation as a prompt.
pub open spec fn template_request(messages: JsonView) -> JsonView {
    JsonView::Object(map!["messages"@ => messages])
}

/// The rendered prompt, if the reply has one.
pub open spec fn rendered_prompt(reply: JsonView) -> Option<Seq<char>> {
    reply.field_text("prompt"@)
}

/// Builds the request to render a conversation as a prompt.
pub fn make_template_request(messages: &Json) -> (request: Json)
    ensures
        request@ == template_request(messages@),
{
    let mut request = no_entries();
    put(&mut request, "messages", messages.duplicate());
    Json::Object(request)
}

/// Reads the rendered prompt from a reply.
pub fn prompt_in(reply: &Json) -> (prompt: Option<String>)
    ensures
        string_view(prompt) == rendered_prompt(reply@),
{
    match reply.get_str("prompt") {
        Some(prompt) => Some(prompt.to_owned()),
        None => None,
    }
}

/// What ends a thought by force: the nudge, what was being repeated, and the
/// closing tag.
pub open spec fn closing_text(earlier: Seq<char>) -> Seq<char> {
    LOOP_NUDGE_PREFIX@ + "(the point you were restating: \""@ + snippet(earlier) + "\")\n"@
        + "</think>\n\n"@
}

/// What ends a thought by force, given the step that was being repeated.
pub fn make_closing_text(earlier: &str) -> (closing: String)
    ensures
        closing@ == closing_text(earlier@),
{
    LOOP_NUDGE_PREFIX.to_owned().concat("(the point you were restating: \"").concat(
        snippet_of(earlier).as_str(),
    ).concat("\")\n").concat("</think>\n\n")
}

/// The prompt that continues a trace behind a thought closed by force.
pub open spec fn continuation_prompt(
    base: Seq<char>,
    trace: Seq<char>,
    earlier: Seq<char>,
) -> Seq<char> {
    base + trace + closing_text(earlier)
}

/// A limit on the tokens of the continuation.
pub open spec fn predict_limit(body: JsonView) -> int {
    match body.field("max_tokens"@) {
        Some(limit) => match limit.signed() {
            Some(n) => n as int,
            None => DEFAULT_PREDICT as int,
        },
        None => DEFAULT_PREDICT as int,
    }
}

/// The JSON number of an optional slot.
pub open spec fn slot_json(slot: Option<i64>) -> Option<JsonView> {
    match slot {
        Some(id) => Some(JsonView::Integer(id as int)),
        None => None,
    }
}

/// The request that continues a trace: the prompt, streamed, with the limit and
/// the sampling parameters of the request it came from, in the slot that holds
/// its cache if that is known.
pub open spec fn completion_request(
    prompt: Seq<char>,
    body: JsonView,
    slot: Option<i64>,
) -> JsonView {
    let base = map![
        "prompt"@ => text_view(prompt),
        "stream"@ => JsonView::Bool(true),
        "n_predict"@ => JsonView::Integer(predict_limit(body)),
    ];
    let placed = with_field(base, "id_slot"@, slot_json(slot));
    let a = with_field(placed, "temperature"@, body.field("temperature"@));
    let b = with_field(a, "top_p"@, body.field("top_p"@));
    let c = with_field(b, "top_k"@, body.field("top_k"@));
    let d = with_field(c, "min_p"@, body.field("min_p"@));
    JsonView::Object(with_field(d, "presence_penalty"@, body.field("presence_penalty"@)))
}

/// Copies a field from one object to another, if it is there.
fn copy_field(fields: &mut Vec<(String, Json)>, key: &str, body: &Json)
    ensures
        object_view(final(fields)@) == with_field(
            object_view(old(fields)@),
            key@,
            body@.field(key@),
        ),
{
    match body.get(key) {
        Some(value) => {
            put(fields, key, value.duplicate());
        },
        None => {},
    }
}

/// Builds the request that continues a trace.
pub fn make_completion_request(prompt: &str, body: &Json, slot: Option<i64>) -> (request: Json)
    ensures
        request@ == completion_request(prompt@, body@, slot),
{
    let limit: i64 = match body.get("max_tokens") {
        Some(limit) => match limit.as_i64() {
            Some(n) => n,
            None => DEFAULT_PREDICT,
        },
        None => DEFAULT_PREDICT,
    };
    let mut fields = no_entries();
    put(&mut fields, "prompt", text(prompt));
    put(&mut fields, "stream", Json::Bool(true));
    put(&mut fields, "n_predict", Json::Negative(limit));
    match slot {
        Some(id) => {
            put(&mut fields, "id_slot", Json::Negative(id));
        },
        None => {},
    }
    copy_field(&mut fields, "temperature", body);
    copy_field(&mut fields, "top_p", body);
    copy_field(&mut fields, "top_k", body);
    copy_field(&mut fields, "min_p", body);
    copy_field(&mut fields, "presence_penalty", body);
    Json::Object(fields)
}

/// A slot is named only where exactly one is busy.
pub proof fn law_ambiguous_slots_name_none(slots: Seq<JsonView>)
    requires
        busy_slots(slots).len() != 1,
    ensures
        processing_slot(JsonView::Array(slots)) is None,
{
}

/// The request that continues a trace carries the prompt, is streamed, keeps the
/// limit and the sampling parameters of the request it came from, and names a
/// slot if and only if one is known.
pub proof fn law_continuation_keeps_what_was_asked(
    prompt: Seq<char>,
    body: JsonView,
    slot: Option<i64>,
)
    ensures
        ({
            let request = completion_request(prompt, body, slot);
            &&& request.field_text("prompt"@) == Some(prompt)
            &&& request.flag("stream"@)
            &&& request.field("n_predict"@) == Some(JsonView::Integer(predict_limit(body)))
            &&& request.field("id_slot"@) == slot_json(slot)
            &&& request.field("temperature"@) == body.field("temperature"@)
            &&& request.field("top_p"@) == body.field("top_p"@)
            &&& request.field("top_k"@) == body.field("top_k"@)
            &&& request.field("min_p"@) == body.field("min_p"@)
            &&& request.field("presence_penalty"@) == body.field("presence_penalty"@)
        }),
{
    reveal_strlit("prompt");
    reveal_strlit("stream");
    reveal_strlit("n_predict");
    reveal_strlit("id_slot");
    reveal_strlit("temperature");
    reveal_strlit("top_p");
    reveal_strlit("top_k");
    reveal_strlit("min_p");
    reveal_strlit("presence_penalty");
    assert("prompt"@[0] != "stream"@[0]);
    assert("top_p"@[4] != "top_k"@[4]);
    assert("top_p"@[0] != "min_p"@[0]);
    assert("top_k"@[0] != "min_p"@[0]);
    assert("prompt"@.len() == 6 && "stream"@.len() == 6 && "n_predict"@.len() == 9);
    assert("id_slot"@.len() == 7 && "temperature"@.len() == 11 && "presence_penalty"@.len() == 16);
    assert("top_p"@.len() == 5 && "top_k"@.len() == 5 && "min_p"@.len() == 5);
    let base = map![
        "prompt"@ => text_view(prompt),
        "stream"@ => JsonView::Bool(true),
        "n_predict"@ => JsonView::Integer(predict_limit(body)),
    ];
    let placed = with_field(base, "id_slot"@, slot_json(slot));
    let a = with_field(placed, "temperature"@, body.field("temperature"@));
    let b = with_field(a, "top_p"@, body.field("top_p"@));
    let c = with_field(b, "top_k"@, body.field("top_k"@));
    let d = with_field(c, "min_p"@, body.field("min_p"@));
    let e = with_field(d, "presence_penalty"@, body.field("presence_penalty"@));
    assert(!base.contains_key("id_slot"@));
    assert(!placed.contains_key("temperature"@));
    assert(!a.contains_key("top_p"@));
    assert(!b.contains_key("top_k"@));
    assert(!c.contains_key("min_p"@));
    assert(!d.contains_key("presence_penalty"@));
    assert(e.contains_key("prompt"@) && e["prompt"@] == base["prompt"@]);
    assert(e.contains_key("stream"@) && e["stream"@] == base["stream"@]);
    assert(e.contains_key("n_predict"@) && e["n_predict"@] == base["n_predict"@]);
}

/// A chunk is read by its first choice, whatever others there are: what it adds to the
/// trace is the thought of that choice's delta, and what it says only where there is no
/// thought; and it ended for the reason that this choice gives.
pub proof fn law_chunks_are_read_by_their_first_choice(chunk: JsonView, choices: Seq<JsonView>)
    requires
        chunk.field("choices"@) == Some(JsonView::Array(choices)),
        choices.len() > 0,
    ensures
        choices[0].field("delta"@) matches Some(delta) ==> {
            &&& delta_of(chunk) == delta
            &&& delta.field("reasoning_content"@) matches Some(JsonView::Text(thought))
                ==> trace_piece(delta_of(chunk)) == thought
            &&& delta.field_text("reasoning_content"@) is None ==> {
                &&& delta.field("content"@) matches Some(JsonView::Text(said)) ==> trace_piece(
                    delta_of(chunk),
                ) == said
                &&& delta.field_text("content"@) is None ==> trace_piece(delta_of(chunk)).len() == 0
            }
        },
        choices[0].field("delta"@) is None ==> trace_piece(delta_of(chunk)).len() == 0,
        choices[0].field("finish_reason"@) matches Some(JsonView::Text(reason))
            ==> finish_reason_of(chunk) == Some(reason),
        choices[0].field_text("finish_reason"@) is None ==> finish_reason_of(chunk) is None,
{
}

/// The slot that is named is the one that is busy, whatever slots are idle before or
/// behind it, and only if no other is busy.
pub proof fn law_the_only_busy_slot_is_named(slots: Seq<JsonView>, i: int)
    requires
        0 <= i < slots.len(),
        slots[i].flag("is_processing"@),
    ensures
        (forall|j: int| 0 <= j < slots.len() && j != i ==> !(#[trigger] slots[j]).flag(
            "is_processing"@,
        )) ==> processing_slot(JsonView::Array(slots)) == match slots[i].field("id"@) {
            Some(JsonView::Integer(n)) => if i64::MIN <= n <= i64::MAX {
                Some(n as i64)
            } else {
                None
            },
            _ => None,
        },
        (exists|j: int|
            0 <= j < slots.len() && j != i && (#[trigger] slots[j]).flag("is_processing"@))
            ==> processing_slot(JsonView::Array(slots)) is None,
{
    let busy = |slot: JsonView| slot.flag("is_processing"@);
    let front = slots.take(i);
    let back = slots.skip(i + 1);
    assert(slots =~= front + seq![slots[i]] + back);
    Seq::filter_distributes_over_add(front + seq![slots[i]], back, busy);
    Seq::filter_distributes_over_add(front, seq![slots[i]], busy);
    reveal_with_fuel(Seq::filter, 2);
    assert(seq![slots[i]].drop_last() =~= Seq::empty());
    assert(seq![slots[i]].filter(busy) =~= seq![slots[i]]);
    lemma_none_busy(front);
    lemma_none_busy(back);
    let all = busy_slots(slots);
    assert(all == front.filter(busy) + seq![slots[i]] + back.filter(busy));
    if forall|j: int| 0 <= j < slots.len() && j != i ==> !(#[trigger] slots[j]).flag(
        "is_processing"@,
    ) {
        assert forall|j: int| 0 <= j < front.len() implies !(#[trigger] front[j]).flag(
            "is_processing"@,
        ) by {
            assert(front[j] == slots[j]);
        }
        assert forall|j: int| 0 <= j < back.len() implies !(#[trigger] back[j]).flag(
            "is_processing"@,
        ) by {
            assert(back[j] == slots[i + 1 + j]);
        }
        assert(all =~= seq![slots[i]]);
    }
    if exists|j: int| 0 <= j < slots.len() && j != i && (#[trigger] slots[j]).flag(
        "is_processing"@,
    ) {
        let j = choose|j: int|
            0 <= j < slots.len() && j != i && (#[trigger] slots[j]).flag("is_processing"@);
        if j < i {
            assert(front[j] == slots[j]);
        } else {
            assert(back[j - i - 1] == slots[j]);
        }
    }
}

/// No slot of a list is busy exactly where none of them is.
proof fn lemma_none_busy(slots: Seq<JsonView>)
    ensures
        busy_slots(slots).len() == 0 <==> (forall|j: int|
            0 <= j < slots.len() ==> !(#[trigger] slots[j]).flag("is_processing"@)),
    decreases slots.len(),
{
    reveal(Seq::filter);
    if slots.len() > 0 {
        let fewer = slots.drop_last();
        lemma_none_busy(fewer);
        assert(slots[slots.len() - 1] == slots.last());
        assert forall|j: int| 0 <= j < fewer.len() implies fewer[j] == slots[j] by {}
        if busy_slots(slots).len() == 0 {
            assert forall|j: int| 0 <= j < slots.len() implies !(#[trigger] slots[j]).flag(
                "is_processing"@,
            ) by {
                if j < fewer.len() {
                    assert(fewer[j] == slots[j]);
                }
            }
        }
        if forall|j: int| 0 <= j < slots.len() ==> !(#[trigger] slots[j]).flag("is_processing"@) {
            assert forall|j: int| 0 <= j < fewer.len() implies !(#[trigger] fewer[j]).flag(
                "is_processing"@,
            ) by {
                assert(fewer[j] == slots[j]);
            }
        }
    }
}

/// The continuation may be as long as the request allows, and where it sets no limit that
/// can be read, as long as the default; and it is asked for nothing beyond what is named.
pub proof fn law_continuation_keeps_the_limit(
    prompt: Seq<char>,
    body: JsonView,
    slot: Option<i64>,
    key: Seq<char>,
)
    ensures
        ({
            let request = completion_request(prompt, body, slot);
            &&& request.field("n_predict"@) == Some(
                match body.field("max_tokens"@) {
                    Some(JsonView::Integer(n)) => JsonView::Integer(
                        if i64::MIN <= n <= i64::MAX {
                            n
                        } else {
                            4096
                        },
                    ),
                    _ => JsonView::Integer(4096),
                },
            )
            &&& slot matches Some(id) ==> request.field("id_slot"@) == Some(
                JsonView::Integer(id as int),
            )
            &&& slot is None ==> request.field("id_slot"@) is None
            &&& request.field(key) is Some ==> {
                ||| key == "prompt"@
                ||| key == "stream"@
                ||| key == "n_predict"@
                ||| key == "id_slot"@
                ||| key == "temperature"@
                ||| key == "top_p"@
                ||| key == "top_k"@
                ||| key == "min_p"@
                ||| key == "presence_penalty"@
            }
        }),
{
    law_continuation_keeps_what_was_asked(prompt, body, slot);
}

/// The conversation is rendered from all of the messages, as they are, and the prompt is
/// what the reply says it is.
pub proof fn law_prompts_are_rendered_from_the_messages(messages: JsonView, reply: JsonView)
    ensures
        template_request(messages).field("messages"@) == Some(messages),
        reply.field("prompt"@) matches Some(JsonView::Text(prompt)) ==> rendered_prompt(reply)
            == Some(prompt),
        !(reply.at("prompt"@) is Text) ==> rendered_prompt(reply) is None,
{
}

} // verus!
