//! What holds of the events and the blocks of a streamed message, one by one.

use crate::anthropic_stream::{
    call_arguments, call_index, BlockKind, CallView, StreamEvent, StreamView,
};
use crate::json::JsonView;
use crate::request_laws::lemma_field_names_differ;
use vstd::prelude::*;

verus! {

/// The keys of events are told apart.
proof fn lemma_event_keys_differ()
    ensures
        "type"@.len() == 4,
        "text"@.len() == 4,
        "type"@ != "text"@,
        "index"@.len() == 5,
        "delta"@.len() == 5,
        "usage"@.len() == 5,
        "index"@ != "delta"@,
        "index"@ != "usage"@,
        "delta"@ != "usage"@,
        "message"@.len() == 7,
        "thinking"@.len() == 8,
        "stop_reason"@.len() == 11,
        "partial_json"@.len() == 12,
        "content_block"@.len() == 13,
        "stop_sequence"@.len() == 13,
{
    reveal_strlit("type");
    reveal_strlit("text");
    reveal_strlit("index");
    reveal_strlit("delta");
    reveal_strlit("usage");
    reveal_strlit("message");
    reveal_strlit("thinking");
    reveal_strlit("stop_reason");
    reveal_strlit("partial_json");
    reveal_strlit("content_block");
    reveal_strlit("stop_sequence");
    assert("type"@[1] == 'y' && "text"@[1] == 'e');
    assert("index"@[0] == 'i' && "delta"@[0] == 'd' && "usage"@[0] == 'u');
}

/// A message is announced under its id and its model, with nothing in it yet.
pub proof fn law_announcements_name_the_message(id: Seq<char>, model: Seq<char>)
    ensures
        ({
            let event = StreamEvent::MessageStart { id, model };
            let message = event.data().at("message"@);
            &&& event.name() == "message_start"@
            &&& event.data().field_text("type"@) == Some("message_start"@)
            &&& message.field_text("id"@) == Some(id)
            &&& message.field_text("type"@) == Some("message"@)
            &&& message.field_text("role"@) == Some("assistant"@)
            &&& message.field_text("model"@) == Some(model)
            &&& message.field("content"@) == Some(JsonView::Array(Seq::empty()))
            &&& message.field("stop_reason"@) == Some(JsonView::Null)
            &&& message.field("stop_sequence"@) == Some(JsonView::Null)
            &&& message.at("usage"@).field("input_tokens"@) == Some(JsonView::Integer(0))
            &&& message.at("usage"@).field("output_tokens"@) == Some(JsonView::Integer(0))
        }),
{
    lemma_field_names_differ();
    lemma_event_keys_differ();
}

/// A block starts empty, under its index and as what it is; that of a tool call has the
/// id and the name of the call.
pub proof fn law_blocks_start_as_what_they_are(
    index: usize,
    kind: BlockKind,
    id: Seq<char>,
    name: Seq<char>,
)
    ensures
        ({
            let event = StreamEvent::BlockStart { index, kind, id, name };
            let block = event.data().at("content_block"@);
            &&& event.name() == "content_block_start"@
            &&& event.data().field_text("type"@) == Some("content_block_start"@)
            &&& event.data().field("index"@) == Some(JsonView::Integer(index as int))
            &&& kind is Thinking ==> {
                &&& block.field_text("type"@) == Some("thinking"@)
                &&& block.field_text("thinking"@) == Some(""@)
            }
            &&& kind is Text ==> {
                &&& block.field_text("type"@) == Some("text"@)
                &&& block.field_text("text"@) == Some(""@)
            }
            &&& kind is ToolUse ==> {
                &&& block.field_text("type"@) == Some("tool_use"@)
                &&& block.field_text("id"@) == Some(id)
                &&& block.field_text("name"@) == Some(name)
                &&& block.field("input"@) == Some(JsonView::Object(Map::empty()))
            }
        }),
{
    lemma_field_names_differ();
    lemma_event_keys_differ();
}

/// A piece of a block goes under the index of the block, as text of the block's kind, and
/// is all of the text.
pub proof fn law_pieces_carry_their_text(index: usize, kind: BlockKind, text: Seq<char>)
    ensures
        ({
            let event = StreamEvent::BlockDelta { index, kind, text };
            let delta = event.data().at("delta"@);
            &&& event.name() == "content_block_delta"@
            &&& event.data().field_text("type"@) == Some("content_block_delta"@)
            &&& event.data().field("index"@) == Some(JsonView::Integer(index as int))
            &&& kind is Thinking ==> {
                &&& delta.field_text("type"@) == Some("thinking_delta"@)
                &&& delta.field_text("thinking"@) == Some(text)
            }
            &&& kind is Text ==> {
                &&& delta.field_text("type"@) == Some("text_delta"@)
                &&& delta.field_text("text"@) == Some(text)
            }
            &&& kind is ToolUse ==> {
                &&& delta.field_text("type"@) == Some("input_json_delta"@)
                &&& delta.field_text("partial_json"@) == Some(text)
            }
        }),
{
    lemma_event_keys_differ();
}

/// A block stops under its index; at its end a message tells why it stops and how many
/// tokens it has, and then stops.
pub proof fn law_ends_tell_why(index: usize, stop_reason: Seq<char>, output_tokens: nat)
    ensures
        ({
            let stop = StreamEvent::BlockStop { index };
            let delta = StreamEvent::MessageDelta { stop_reason, output_tokens };
            let end = StreamEvent::MessageStop;
            &&& stop.name() == "content_block_stop"@
            &&& stop.data().field_text("type"@) == Some("content_block_stop"@)
            &&& stop.data().field("index"@) == Some(JsonView::Integer(index as int))
            &&& delta.name() == "message_delta"@
            &&& delta.data().field_text("type"@) == Some("message_delta"@)
            &&& delta.data().at("delta"@).field_text("stop_reason"@) == Some(stop_reason)
            &&& delta.data().at("delta"@).field("stop_sequence"@) == Some(JsonView::Null)
            &&& delta.data().at("usage"@).field("output_tokens"@) == Some(
                JsonView::Integer(output_tokens as int),
            )
            &&& end.name() == "message_stop"@
            &&& end.data().field_text("type"@) == Some("message_stop"@)
        }),
{
    lemma_event_keys_differ();
}

/// A piece of a tool call is read by its fields: its index is that of its call, zero where
/// there is none, and it brings the arguments of its function, none where there are none.
/// The pieces of a delta are those that it lists.
pub proof fn law_call_pieces_are_read_by_their_fields(call: JsonView, delta: JsonView)
    ensures
        call_index(call) == match call.field("index"@) {
            Some(JsonView::Integer(n)) => if 0 <= n <= u64::MAX {
                n
            } else {
                0
            },
            _ => 0,
        },
        call.at("function"@).field("arguments"@) matches Some(JsonView::Text(s)) ==> call_arguments(
            call,
        ) == s,
        call.at("function"@).field_text("arguments"@) is None ==> call_arguments(call).len() == 0,
        delta.field("tool_calls"@) matches Some(JsonView::Array(calls)) ==> StreamView::calls_of(
            delta,
        ) == calls,
        !(delta.at("tool_calls"@) is Array) ==> StreamView::calls_of(delta).len() == 0,
{
    reveal_strlit("");
}

/// What is known of the id or the name of a call: the first that was given.
pub open spec fn first_given(before: Seq<char>, given: Option<Seq<char>>) -> Seq<char> {
    if before.len() > 0 {
        before
    } else {
        match given {
            Some(now) => now,
            None => Seq::empty(),
        }
    }
}

/// A block of a tool call is started by the piece that brings the name of the call, if
/// not before, under the id and the name that were given first; and no piece of one call
/// changes what is known of another.
pub proof fn law_calls_start_under_their_id_and_name(s: StreamView, piece: JsonView)
    ensures
        ({
            let index = call_index(piece);
            let before = s.known_call(index);
            let id = first_given(before.id, piece.field_text("id"@));
            let name = first_given(before.name, piece.at("function"@).field_text("name"@));
            let (after, events) = s.called(piece);
            &&& after.known_call(index).id == id
            &&& after.known_call(index).name == name
            &&& after.known_call(index).started == (before.started || name.len() > 0)
            &&& name.len() == 0 ==> events.len() == 0
            &&& name.len() > 0 && !before.started ==> exists|i: int|
                0 <= i < events.len() && (#[trigger] events[i] matches StreamEvent::BlockStart {
                    kind,
                    ..
                } && kind == BlockKind::ToolUse(index))
            &&& forall|i: int|
                0 <= i < events.len() ==> (#[trigger] events[i] matches StreamEvent::BlockStart {
                    kind,
                    id: told,
                    name: called,
                    ..
                } ==> kind == BlockKind::ToolUse(index) && told == id && called == name)
            &&& forall|other: u64|
                other != index ==> #[trigger] after.known_call(other) == s.known_call(other)
        }),
{
    reveal_strlit("");
    let index = call_index(piece);
    let before = s.known_call(index);
    let id = first_given(before.id, piece.field_text("id"@));
    let name = first_given(before.name, piece.at("function"@).field_text("name"@));
    let (after, events) = s.called(piece);
    let call = before.heard(piece);
    assert(call.id =~= id);
    assert(call.name =~= name);
    if name.len() > 0 {
        let noted = s.noting(index, CallView { held: ""@, started: true, ..call });
        let (ready, start) = s.announced(index, call);
        let (done, more) = ready.added(BlockKind::ToolUse(index), call.id, call.name, call.held);
        assert(events =~= start + more);
        if !before.started {
            assert(start.last() is BlockStart);
            assert(events[start.len() - 1] == start.last());
        }
    }
}

/// A text of a kind goes on in the block that is open, if that holds this kind, and in one
/// piece; otherwise the open block is stopped, and a new one is started for it, with the
/// next index.
pub proof fn law_texts_go_on_in_the_open_block(s: StreamView, delta: JsonView, kind: BlockKind)
    requires
        kind is Thinking || kind is Text,
        kind is Thinking ==> delta.field_text("content"@) is None,
        kind is Text ==> delta.field_text("reasoning_content"@) is None,
        delta.field("tool_calls"@) is None,
    ensures
        ({
            let text = if kind is Text {
                delta.text_or("content"@, ""@)
            } else {
                delta.text_or("reasoning_content"@, ""@)
            };
            let events = s.fed(delta).1;
            &&& text.len() == 0 ==> events.len() == 0
            &&& text.len() > 0 ==> match s.current {
                Some((open, index)) => if open == kind {
                    events == seq![StreamEvent::BlockDelta { index, kind, text }]
                } else {
                    &&& events.len() == 3
                    &&& events[0] == StreamEvent::BlockStop { index }
                    &&& events[1] matches StreamEvent::BlockStart { index: new, kind: held, .. }
                        && new == s.next_index && held == kind
                    &&& events[2] == StreamEvent::BlockDelta { index: s.next_index, kind, text }
                },
                None => {
                    &&& events.len() == 2
                    &&& events[0] matches StreamEvent::BlockStart { index: new, kind: held, .. }
                        && new == s.next_index && held == kind
                    &&& events[1] == StreamEvent::BlockDelta { index: s.next_index, kind, text }
                },
            }
        }),
{
    reveal_strlit("");
    let text = if kind is Text {
        delta.text_or("content"@, ""@)
    } else {
        delta.text_or("reasoning_content"@, ""@)
    };
    let events = s.fed(delta).1;
    assert(StreamView::calls_of(delta) =~= Seq::empty());
    assert(events =~= s.spoken(kind, text).1);
    if text.len() > 0 && s.is_open(kind) {
        assert(events =~= seq![
            StreamEvent::BlockDelta { index: (s.current->0).1, kind, text },
        ]);
    }
}

/// Where a kind comes among the pieces of one delta.
pub open spec fn place(kind: BlockKind) -> int {
    match kind {
        BlockKind::Thinking => 0,
        BlockKind::Text => 1,
        BlockKind::ToolUse(_) => 2,
    }
}

/// Do all pieces among some events come at this place?
spec fn placed(events: Seq<StreamEvent>, at: int) -> bool {
    forall|i: int|
        0 <= i < events.len() ==> (#[trigger] events[i] matches StreamEvent::BlockDelta {
            kind,
            ..
        } ==> place(kind) == at)
}

/// The pieces that a list of calls sends are those of calls.
proof fn lemma_calls_are_placed(s: StreamView, calls: Seq<JsonView>)
    ensures
        placed(s.called_all(calls).1, 2),
    decreases calls.len(),
{
    if calls.len() > 0 {
        lemma_calls_are_placed(s, calls.drop_last());
        let (before, events) = s.called_all(calls.drop_last());
        let (after, more) = before.called(calls.last());
        let all = events + more;
        assert(placed(more, 2));
        assert forall|i: int| 0 <= i < all.len() implies (#[trigger] all[i] matches StreamEvent::BlockDelta {
            kind,
            ..
        } ==> place(kind) == 2) by {
            if i < events.len() {
                assert(all[i] == events[i]);
            } else {
                assert(all[i] == more[i - events.len()]);
            }
        }
    }
}

/// Of one delta, what is thought comes before what is said, and that before the tools that
/// are called.
pub proof fn law_thought_comes_before_speech_before_calls(
    s: StreamView,
    delta: JsonView,
    i: int,
    j: int,
)
    requires
        0 <= i <= j < s.fed(delta).1.len(),
    ensures
        s.fed(delta).1[i] matches StreamEvent::BlockDelta { kind: first, .. } ==> (s.fed(
            delta,
        ).1[j] matches StreamEvent::BlockDelta { kind: second, .. } ==> place(first) <= place(
            second,
        )),
{
    let (thinking, thoughts) = s.thought(delta);
    let (talking, texts) = thinking.told(delta);
    let (done, calls) = talking.called_all(StreamView::calls_of(delta));
    lemma_calls_are_placed(talking, StreamView::calls_of(delta));
    assert(placed(thoughts, 0));
    assert(placed(texts, 1));
    let events = s.fed(delta).1;
    let a = thoughts.len() as int;
    let b = a + texts.len();
    assert forall|k: int| 0 <= k < events.len() implies #[trigger] events[k] == if k < a {
        thoughts[k]
    } else if k < b {
        texts[k - a]
    } else {
        calls[k - b]
    } by {}
}

} // verus!
