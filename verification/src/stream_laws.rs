//! What holds of every streamed message, whatever is streamed.

use crate::anthropic::{quarter_up, stop_reason};
use crate::anthropic_stream::{
    call_arguments, call_index, BlockKind, CallView, Progress, StreamEvent, StreamView,
};
use crate::json::JsonView;
use vstd::prelude::*;
use vstd::utf8::encode_utf8;

verus! {

/// What a reader of the events knows: the index that the next block must have,
/// and which block is open and what it holds. Indexes count up, and come round to
/// zero should they ever run out.
pub struct Reader {
    pub next: usize,
    pub open: Option<(BlockKind, usize)>,
}

impl Reader {
    /// The reader after an event, if the wire format lets the event follow: a
    /// block starts with the next index while none is open, a piece belongs to
    /// the block that is open and is of the kind that the block holds, only that
    /// block stops, and the message ends with no block open.
    pub open spec fn after(self, event: StreamEvent) -> Option<Reader> {
        match event {
            StreamEvent::MessageStart { .. } => Some(self),
            StreamEvent::BlockStart { index, kind, .. } => if self.open is None && index
                == self.next {
                Some(Reader { next: self.next.wrapping_add(1), open: Some((kind, index)) })
            } else {
                None
            },
            StreamEvent::BlockDelta { index, kind, .. } => if self.open == Some((kind, index)) {
                Some(self)
            } else {
                None
            },
            StreamEvent::BlockStop { index } => match self.open {
                Some((_, open)) => if open == index {
                    Some(Reader { open: None, ..self })
                } else {
                    None
                },
                None => None,
            },
            StreamEvent::MessageDelta { .. } => if self.open is None {
                Some(self)
            } else {
                None
            },
            StreamEvent::MessageStop => if self.open is None {
                Some(self)
            } else {
                None
            },
        }
    }

    /// The reader after some events, if the wire format lets each follow.
    pub open spec fn after_all(self, events: Seq<StreamEvent>) -> Option<Reader>
        decreases events.len(),
    {
        if events.len() == 0 {
            Some(self)
        } else {
            match self.after_all(events.drop_last()) {
                Some(reader) => reader.after(events.last()),
                None => None,
            }
        }
    }
}

/// The text of a kind that some events send, joined; of a tool call, its input.
pub open spec fn sent(events: Seq<StreamEvent>, kind: BlockKind) -> Seq<char>
    decreases events.len(),
{
    if events.len() == 0 {
        Seq::empty()
    } else {
        let before = sent(events.drop_last(), kind);
        match events.last() {
            StreamEvent::BlockDelta { kind: held, text, .. } => if held == kind {
                before + text
            } else {
                before
            },
            _ => before,
        }
    }
}

/// The arguments that some pieces of tool calls bring for one call, joined.
pub open spec fn arguments_for(calls: Seq<JsonView>, index: u64) -> Seq<char>
    decreases calls.len(),
{
    if calls.len() == 0 {
        Seq::empty()
    } else {
        arguments_for(calls.drop_last(), index) + if call_index(calls.last()) == index {
            call_arguments(calls.last())
        } else {
            Seq::empty()
        }
    }
}

/// What a delta brings of a kind.
pub open spec fn brought(delta: JsonView, kind: BlockKind) -> Seq<char> {
    match kind {
        BlockKind::Thinking => delta.text_or("reasoning_content"@, ""@),
        BlockKind::Text => delta.text_or("content"@, ""@),
        BlockKind::ToolUse(index) => arguments_for(StreamView::calls_of(delta), index),
    }
}

/// What some deltas bring of a kind, joined.
pub open spec fn brought_by_all(deltas: Seq<JsonView>, kind: BlockKind) -> Seq<char>
    decreases deltas.len(),
{
    if deltas.len() == 0 {
        Seq::empty()
    } else {
        brought_by_all(deltas.drop_last(), kind) + brought(deltas.last(), kind)
    }
}

/// How many bytes of thought and text some deltas bring.
pub open spec fn bytes_brought(deltas: Seq<JsonView>) -> nat
    decreases deltas.len(),
{
    if deltas.len() == 0 {
        0
    } else {
        bytes_brought(deltas.drop_last()) + encode_utf8(
            brought(deltas.last(), BlockKind::Thinking),
        ).len() + encode_utf8(brought(deltas.last(), BlockKind::Text)).len()
    }
}

/// The indexes with which blocks are started, in order.
pub open spec fn started_indexes(events: Seq<StreamEvent>) -> Seq<usize>
    decreases events.len(),
{
    if events.len() == 0 {
        Seq::empty()
    } else {
        let before = started_indexes(events.drop_last());
        match events.last() {
            StreamEvent::BlockStart { index, .. } => before.push(index),
            _ => before,
        }
    }
}

impl StreamView {
    /// The reader who has followed the message so far.
    pub open spec fn reader(self) -> Reader {
        Reader { next: self.next_index, open: self.current }
    }

    /// After some deltas.
    pub open spec fn fed_all(self, deltas: Seq<JsonView>) -> Progress
        decreases deltas.len(),
    {
        if deltas.len() == 0 {
            (self, Seq::empty())
        } else {
            let (before, events) = self.fed_all(deltas.drop_last());
            let (after, more) = before.fed(deltas.last());
            (after, events + more)
        }
    }

    /// Has nothing been streamed yet?
    pub open spec fn is_fresh(self) -> bool {
        &&& self.next_index == 0
        &&& self.current is None
        &&& self.tools == Map::<u64, CallView>::empty()
        &&& self.output_chars == 0
    }

    /// Does nothing wait of any tool call whose name has been seen?
    pub open spec fn only_nameless_wait(self) -> bool {
        forall|index: u64|
            (#[trigger] self.known_call(index)).name.len() > 0 ==> self.known_call(
                index,
            ).held.len() == 0
    }

    /// What has been brought of a kind and waits to be sent.
    pub open spec fn waiting(self, kind: BlockKind) -> Seq<char> {
        match kind {
            BlockKind::ToolUse(index) => self.known_call(index).held,
            _ => Seq::empty(),
        }
    }
}

/// Is every tool call named that a block is started for?
pub open spec fn calls_are_named(events: Seq<StreamEvent>) -> bool {
    forall|i: int|
        0 <= i < events.len() ==> (#[trigger] events[i] matches StreamEvent::BlockStart {
            kind,
            name,
            ..
        } ==> (kind is ToolUse ==> name.len() > 0))
}

/// Following two runs of events is following one and then the other.
proof fn lemma_reader_concat(reader: Reader, a: Seq<StreamEvent>, b: Seq<StreamEvent>)
    ensures
        reader.after_all(a + b) == match reader.after_all(a) {
            Some(middle) => middle.after_all(b),
            None => None,
        },
    decreases b.len(),
{
    if b.len() == 0 {
        assert(a + b =~= a);
    } else {
        lemma_reader_concat(reader, a, b.drop_last());
        assert((a + b).drop_last() =~= a + b.drop_last());
    }
}

/// Following one event.
proof fn lemma_reader_one(reader: Reader, event: StreamEvent)
    ensures
        reader.after_all(seq![event]) == reader.after(event),
{
    assert(seq![event].drop_last() =~= Seq::empty());
    reveal_with_fuel(Reader::after_all, 2);
}

/// Two runs of events send what the one and then the other sends.
pub proof fn lemma_sent_concat(a: Seq<StreamEvent>, b: Seq<StreamEvent>, kind: BlockKind)
    ensures
        sent(a + b, kind) == sent(a, kind) + sent(b, kind),
    decreases b.len(),
{
    if b.len() == 0 {
        assert(a + b =~= a);
        assert(sent(a, kind) + sent(b, kind) =~= sent(a, kind));
    } else {
        lemma_sent_concat(a, b.drop_last(), kind);
        assert((a + b).drop_last() =~= a + b.drop_last());
        assert(sent(a + b, kind) =~= sent(a, kind) + sent(b, kind));
    }
}

/// Events that are no pieces send nothing.
proof fn lemma_no_pieces_send_nothing(events: Seq<StreamEvent>, kind: BlockKind)
    requires
        forall|i: int| 0 <= i < events.len() ==> !(#[trigger] events[i] is BlockDelta),
    ensures
        sent(events, kind) == Seq::<char>::empty(),
    decreases events.len(),
{
    if events.len() > 0 {
        assert(!(events[events.len() - 1] is BlockDelta));
        lemma_no_pieces_send_nothing(events.drop_last(), kind);
    }
}

/// Closing a block is in order.
proof fn lemma_closing(s: StreamView)
    ensures
        s.reader().after_all(s.closed().1) == Some(s.closed().0.reader()),
        s.closed().0 == (StreamView { current: None, ..s }),
        calls_are_named(s.closed().1),
        forall|i: int| 0 <= i < s.closed().1.len() ==> !(#[trigger] s.closed().1[i] is BlockDelta),
{
    match s.current {
        Some((_, index)) => {
            lemma_reader_one(s.reader(), StreamEvent::BlockStop { index });
        },
        None => {},
    }
}

/// Closing a block and opening another is in order, and sends nothing.
proof fn lemma_reopening(s: StreamView, kind: BlockKind, id: Seq<char>, name: Seq<char>)
    ensures
        ({
            let (after, events) = s.reopened(kind, id, name);
            &&& s.reader().after_all(events) == Some(after.reader())
            &&& after.tools == s.tools
            &&& after.output_chars == s.output_chars
            &&& after.is_open(kind)
            &&& forall|k: BlockKind| #[trigger] sent(events, k) == Seq::<char>::empty()
            &&& (kind is ToolUse ==> name.len() > 0) ==> calls_are_named(events)
        }),
{
    lemma_closing(s);
    let (idle, stop) = s.closed();
    let (busy, start) = idle.opened(kind, id, name);
    let events = s.reopened(kind, id, name).1;
    assert forall|k: BlockKind| #[trigger] sent(events, k) == Seq::<char>::empty() by {
        lemma_no_pieces_send_nothing(events, k);
    }
    assert(start =~= seq![start[0]]);
    lemma_reader_one(idle.reader(), start[0]);
    lemma_reader_concat(s.reader(), stop, start);
}

/// Adding a text is in order, and sends the text.
proof fn lemma_adding(s: StreamView, kind: BlockKind, id: Seq<char>, name: Seq<char>, text: Seq<char>)
    ensures
        ({
            let (after, events) = s.added(kind, id, name, text);
            &&& s.reader().after_all(events) == Some(after.reader())
            &&& after.tools == s.tools
            &&& after.output_chars == s.output_chars
            &&& forall|k: BlockKind| #[trigger]
                sent(events, k) == if k == kind {
                    text
                } else {
                    Seq::<char>::empty()
                }
            &&& (kind is ToolUse ==> name.len() > 0) ==> calls_are_named(events)
        }),
{
    let (after, events) = s.added(kind, id, name, text);
    if text.len() == 0 {
        assert(text =~= Seq::<char>::empty());
    } else {
        let (ready, before) = s.switched(kind, id, name);
        let event = StreamEvent::BlockDelta { index: (ready.current->0).1, kind, text };
        lemma_reopening(s, kind, id, name);
        lemma_reader_one(ready.reader(), event);
        lemma_reader_concat(s.reader(), before, seq![event]);
        assert(before + seq![event] =~= events);
        assert(events.drop_last() =~= before);
        assert forall|k: BlockKind| #[trigger] sent(events, k) == if k == kind {
            text
        } else {
            Seq::<char>::empty()
        } by {
            assert(sent(before, k) =~= Seq::<char>::empty());
            assert(Seq::<char>::empty() + text =~= text);
        }
        assert(calls_are_named(before) ==> calls_are_named(events)) by {
            assert forall|i: int| 0 <= i < events.len() - 1 implies #[trigger] events[i]
                == before[i] by {}
        }
    }
}

/// Two runs of events in which every tool call is named.
proof fn lemma_named_concat(a: Seq<StreamEvent>, b: Seq<StreamEvent>)
    requires
        calls_are_named(a),
        calls_are_named(b),
    ensures
        calls_are_named(a + b),
{
    let all = a + b;
    assert forall|i: int| 0 <= i < all.len() implies (#[trigger] all[i] matches StreamEvent::BlockStart {
        kind,
        name,
        ..
    } ==> (kind is ToolUse ==> name.len() > 0)) by {
        if i < a.len() {
            assert(all[i] == a[i]);
        } else {
            assert(all[i] == b[i - a.len()]);
        }
    }
}

/// A piece of a tool call is in order; what it brings is sent, or waits.
proof fn lemma_calling(s: StreamView, piece: JsonView)
    ensures
        ({
            let (after, events) = s.called(piece);
            &&& s.reader().after_all(events) == Some(after.reader())
            &&& after.output_chars == s.output_chars
            &&& calls_are_named(events)
            &&& forall|k: BlockKind| #[trigger]
                sent(events, k) + after.waiting(k) == s.waiting(k) + if k == BlockKind::ToolUse(
                    call_index(piece),
                ) {
                    call_arguments(piece)
                } else {
                    Seq::<char>::empty()
                }
        }),
{
    reveal_strlit("");
    let index = call_index(piece);
    let kind = BlockKind::ToolUse(index);
    let call = s.known_call(index).heard(piece);
    let (after, events) = s.called(piece);
    assert(call.held == s.waiting(kind) + call_arguments(piece));
    if call.name.len() > 0 {
        let noted = s.noting(index, CallView { held: ""@, started: true, ..call });
        let (ready, start) = s.announced(index, call);
        let (done, more) = ready.added(kind, call.id, call.name, call.held);
        lemma_reopening(noted, kind, call.id, call.name);
        lemma_adding(ready, kind, call.id, call.name, call.held);
        assert(noted.reader() == s.reader());
        lemma_reader_concat(s.reader(), start, more);
        lemma_named_concat(start, more);
        assert forall|k: BlockKind| #[trigger]
            sent(events, k) + after.waiting(k) == s.waiting(k) + if k == kind {
                call_arguments(piece)
            } else {
                Seq::<char>::empty()
            } by {
            lemma_sent_concat(start, more, k);
            assert(sent(start, k) == Seq::<char>::empty());
            if k == kind {
                assert(after.waiting(k) =~= Seq::<char>::empty());
                assert(sent(events, k) + after.waiting(k) =~= call.held);
            } else {
                assert(after.waiting(k) == s.waiting(k));
                assert(sent(events, k) + after.waiting(k) =~= s.waiting(k));
                assert(s.waiting(k) + Seq::<char>::empty() =~= s.waiting(k));
            }
        }
    } else {
        assert forall|k: BlockKind| #[trigger]
            sent(events, k) + after.waiting(k) == s.waiting(k) + if k == kind {
                call_arguments(piece)
            } else {
                Seq::<char>::empty()
            } by {
            assert(sent(events, k) + after.waiting(k) =~= after.waiting(k));
            assert(s.waiting(k) + Seq::<char>::empty() =~= s.waiting(k));
        }
    }
}

/// Pieces of tool calls are in order; what they bring is sent, or waits.
proof fn lemma_calling_all(s: StreamView, calls: Seq<JsonView>)
    ensures
        ({
            let (after, events) = s.called_all(calls);
            &&& s.reader().after_all(events) == Some(after.reader())
            &&& after.output_chars == s.output_chars
            &&& calls_are_named(events)
            &&& forall|k: BlockKind| #[trigger]
                sent(events, k) + after.waiting(k) == s.waiting(k) + called_for(calls, k)
        }),
    decreases calls.len(),
{
    let (after, events) = s.called_all(calls);
    if calls.len() == 0 {
        assert forall|k: BlockKind| #[trigger]
            sent(events, k) + after.waiting(k) == s.waiting(k) + called_for(calls, k) by {
            assert(sent(events, k) + after.waiting(k) =~= s.waiting(k));
            assert(s.waiting(k) + called_for(calls, k) =~= s.waiting(k));
        }
    } else {
        let fewer = calls.drop_last();
        let (before, first) = s.called_all(fewer);
        let more = before.called(calls.last()).1;
        lemma_calling_all(s, fewer);
        lemma_calling(before, calls.last());
        lemma_reader_concat(s.reader(), first, more);
        lemma_named_concat(first, more);
        assert forall|k: BlockKind| #[trigger]
            sent(events, k) + after.waiting(k) == s.waiting(k) + called_for(calls, k) by {
            lemma_sent_concat(first, more, k);
            let last = if k == BlockKind::ToolUse(call_index(calls.last())) {
                call_arguments(calls.last())
            } else {
                Seq::<char>::empty()
            };
            assert(sent(more, k) + after.waiting(k) == before.waiting(k) + last);
            assert(sent(first, k) + before.waiting(k) == s.waiting(k) + called_for(fewer, k));
            assert(called_for(calls, k) =~= called_for(fewer, k) + last);
            assert(sent(events, k) + after.waiting(k) =~= sent(first, k) + (sent(more, k)
                + after.waiting(k)));
            assert(sent(first, k) + (before.waiting(k) + last) =~= (sent(first, k)
                + before.waiting(k)) + last);
            assert((s.waiting(k) + called_for(fewer, k)) + last =~= s.waiting(k) + called_for(
                calls,
                k,
            ));
        }
    }
}

/// Adding a thought or a text is in order, sends the text and counts it.
proof fn lemma_speaking(s: StreamView, kind: BlockKind, text: Seq<char>)
    requires
        !(kind is ToolUse),
    ensures
        ({
            let (after, events) = s.spoken(kind, text);
            &&& s.reader().after_all(events) == Some(after.reader())
            &&& s.output_chars + encode_utf8(text).len() <= usize::MAX ==> after.output_chars
                == s.output_chars + encode_utf8(text).len()
            &&& after.tools == s.tools
            &&& calls_are_named(events)
            &&& forall|k: BlockKind| #[trigger]
                sent(events, k) == if k == kind {
                    text
                } else {
                    Seq::<char>::empty()
                }
        }),
{
    lemma_adding(s, kind, ""@, ""@, text);
}

/// What pieces of tool calls bring of a kind.
pub open spec fn called_for(calls: Seq<JsonView>, kind: BlockKind) -> Seq<char> {
    match kind {
        BlockKind::ToolUse(index) => arguments_for(calls, index),
        _ => Seq::empty(),
    }
}

/// The events of a delta keep to the wire format: blocks start in the order of
/// their indexes, one at a time, and every piece belongs to the block that is open
/// and is of the kind that the block holds.
pub proof fn law_deltas_keep_to_the_wire_format(s: StreamView, delta: JsonView)
    ensures
        s.reader().after_all(s.fed(delta).1) == Some(s.fed(delta).0.reader()),
{
    let (thinking, thoughts) = s.thought(delta);
    let (talking, texts) = thinking.told(delta);
    let calls = StreamView::calls_of(delta);
    lemma_speaking(s, BlockKind::Thinking, brought(delta, BlockKind::Thinking));
    lemma_speaking(thinking, BlockKind::Text, brought(delta, BlockKind::Text));
    lemma_calling_all(talking, calls);
    lemma_reader_concat(s.reader(), thoughts, texts);
    lemma_reader_concat(s.reader(), thoughts + texts, talking.called_all(calls).1);
}

/// A whole stream of deltas keeps to the wire format.
pub proof fn law_streams_keep_to_the_wire_format(s: StreamView, deltas: Seq<JsonView>)
    ensures
        s.reader().after_all(s.fed_all(deltas).1) == Some(s.fed_all(deltas).0.reader()),
    decreases deltas.len(),
{
    if deltas.len() > 0 {
        let fewer = deltas.drop_last();
        law_streams_keep_to_the_wire_format(s, fewer);
        let (before, events) = s.fed_all(fewer);
        law_deltas_keep_to_the_wire_format(before, deltas.last());
        lemma_reader_concat(s.reader(), events, before.fed(deltas.last()).1);
    }
}

/// A reader finds blocks started with the indexes from the next one on, in order,
/// until they run out.
proof fn lemma_started_in_order(reader: Reader, events: Seq<StreamEvent>)
    requires
        reader.after_all(events) is Some,
        reader.next + started_indexes(events).len() <= usize::MAX,
    ensures
        reader.after_all(events)->0.next == reader.next + started_indexes(events).len(),
        forall|i: int|
            0 <= i < started_indexes(events).len() ==> #[trigger] started_indexes(events)[i]
                == reader.next + i,
    decreases events.len(),
{
    if events.len() > 0 {
        lemma_started_in_order(reader, events.drop_last());
    }
}

/// The blocks of a stream are started with the indexes 0, 1, 2 and so on, as long
/// as they can be numbered.
pub proof fn law_blocks_are_numbered_in_order(s: StreamView, deltas: Seq<JsonView>)
    requires
        s.is_fresh(),
        started_indexes(s.fed_all(deltas).1).len() <= usize::MAX,
    ensures
        forall|i: int|
            0 <= i < started_indexes(s.fed_all(deltas).1).len() ==> #[trigger] started_indexes(
                s.fed_all(deltas).1,
            )[i] == i,
{
    law_streams_keep_to_the_wire_format(s, deltas);
    lemma_started_in_order(s.reader(), s.fed_all(deltas).1);
}

/// A delta loses, doubles and reorders nothing: of each kind, and of each tool
/// call, what is sent and what then waits is what waited before and what the delta
/// brings.
pub proof fn law_deltas_lose_nothing(s: StreamView, delta: JsonView, kind: BlockKind)
    ensures
        sent(s.fed(delta).1, kind) + s.fed(delta).0.waiting(kind) == s.waiting(kind) + brought(
            delta,
            kind,
        ),
{
    let (thinking, thoughts) = s.thought(delta);
    let (talking, texts) = thinking.told(delta);
    let calls = StreamView::calls_of(delta);
    let (done, inputs) = talking.called_all(calls);
    lemma_speaking(s, BlockKind::Thinking, brought(delta, BlockKind::Thinking));
    lemma_speaking(thinking, BlockKind::Text, brought(delta, BlockKind::Text));
    lemma_calling_all(talking, calls);
    lemma_sent_concat(thoughts, texts, kind);
    lemma_sent_concat(thoughts + texts, inputs, kind);
    assert(talking.waiting(kind) == s.waiting(kind));
    assert(sent(inputs, kind) + done.waiting(kind) == s.waiting(kind) + called_for(calls, kind));
    let all = sent(s.fed(delta).1, kind) + done.waiting(kind);
    match kind {
        BlockKind::ToolUse(_) => {
            assert(all =~= sent(inputs, kind) + done.waiting(kind));
        },
        _ => {
            assert(sent(inputs, kind) + done.waiting(kind) =~= Seq::<char>::empty());
            assert(sent(inputs, kind).len() == 0 && done.waiting(kind).len() == 0);
            assert(all =~= brought(delta, kind));
            assert(s.waiting(kind) + brought(delta, kind) =~= brought(delta, kind));
        },
    }
}

/// Over a whole stream nothing is lost, doubled or reordered: all the text that is
/// sent, joined, is all the text that was brought, joined; the same holds of
/// thought, and of each tool call, whose input is sent to its blocks except for
/// what waits for its name.
pub proof fn law_streams_lose_nothing(s: StreamView, deltas: Seq<JsonView>, kind: BlockKind)
    ensures
        sent(s.fed_all(deltas).1, kind) + s.fed_all(deltas).0.waiting(kind) == s.waiting(kind)
            + brought_by_all(deltas, kind),
    decreases deltas.len(),
{
    let (after, events) = s.fed_all(deltas);
    if deltas.len() == 0 {
        assert(sent(events, kind) + after.waiting(kind) =~= s.waiting(kind));
        assert(s.waiting(kind) + brought_by_all(deltas, kind) =~= s.waiting(kind));
    } else {
        let fewer = deltas.drop_last();
        let (before, first) = s.fed_all(fewer);
        let more = before.fed(deltas.last()).1;
        let last = brought(deltas.last(), kind);
        law_streams_lose_nothing(s, fewer, kind);
        law_deltas_lose_nothing(before, deltas.last(), kind);
        lemma_sent_concat(first, more, kind);
        assert(sent(events, kind) + after.waiting(kind) =~= sent(first, kind) + (sent(more, kind)
            + after.waiting(kind)));
        assert(sent(first, kind) + (before.waiting(kind) + last) =~= (sent(first, kind)
            + before.waiting(kind)) + last);
        assert((s.waiting(kind) + brought_by_all(fewer, kind)) + last =~= s.waiting(kind)
            + brought_by_all(deltas, kind));
    }
}

/// A piece of a tool call keeps it so that nothing waits of a named call.
proof fn lemma_calling_keeps_only_nameless_waiting(s: StreamView, piece: JsonView)
    requires
        s.only_nameless_wait(),
    ensures
        s.called(piece).0.only_nameless_wait(),
{
    reveal_strlit("");
    let index = call_index(piece);
    let kind = BlockKind::ToolUse(index);
    let call = s.known_call(index).heard(piece);
    let after = s.called(piece).0;
    if call.name.len() > 0 {
        let noted = s.noting(index, CallView { held: ""@, started: true, ..call });
        lemma_reopening(noted, kind, call.id, call.name);
        lemma_adding(s.announced(index, call).0, kind, call.id, call.name, call.held);
        assert(after.tools == noted.tools);
    }
    assert forall|k: u64| (#[trigger] after.known_call(k)).name.len() > 0 implies after.known_call(
        k,
    ).held.len() == 0 by {
        if k != index {
            assert(after.known_call(k) == s.known_call(k));
        }
    }
}

/// Pieces of tool calls keep it so that nothing waits of a named call.
proof fn lemma_calling_all_keeps_only_nameless_waiting(s: StreamView, calls: Seq<JsonView>)
    requires
        s.only_nameless_wait(),
    ensures
        s.called_all(calls).0.only_nameless_wait(),
    decreases calls.len(),
{
    if calls.len() > 0 {
        lemma_calling_all_keeps_only_nameless_waiting(s, calls.drop_last());
        lemma_calling_keeps_only_nameless_waiting(
            s.called_all(calls.drop_last()).0,
            calls.last(),
        );
    }
}

/// Once the name of a tool call has been seen, nothing of it ever waits: a stream
/// keeps it so.
pub proof fn law_named_calls_never_wait(s: StreamView, deltas: Seq<JsonView>)
    requires
        s.only_nameless_wait(),
    ensures
        s.fed_all(deltas).0.only_nameless_wait(),
    decreases deltas.len(),
{
    if deltas.len() > 0 {
        law_named_calls_never_wait(s, deltas.drop_last());
        let before = s.fed_all(deltas.drop_last()).0;
        let delta = deltas.last();
        let thinking = before.thought(delta).0;
        let talking = thinking.told(delta).0;
        lemma_speaking(before, BlockKind::Thinking, brought(delta, BlockKind::Thinking));
        lemma_speaking(thinking, BlockKind::Text, brought(delta, BlockKind::Text));
        assert(talking.tools == before.tools);
        assert(talking.only_nameless_wait()) by {
            assert forall|k: u64| (#[trigger] talking.known_call(k)).name.len() > 0 implies
                talking.known_call(k).held.len() == 0 by {
                assert(talking.known_call(k) == before.known_call(k));
            }
        }
        lemma_calling_all_keeps_only_nameless_waiting(talking, StreamView::calls_of(delta));
    }
}

/// A message sends all that is brought, in order and once: all the thought, all the
/// text, and of each tool call whose name has been seen all the arguments. Of a call
/// whose name has not been seen, nothing is sent.
pub proof fn law_messages_send_all_that_is_brought(
    s: StreamView,
    deltas: Seq<JsonView>,
    index: u64,
)
    requires
        s.is_fresh(),
    ensures
        sent(s.fed_all(deltas).1, BlockKind::Thinking) == brought_by_all(
            deltas,
            BlockKind::Thinking,
        ),
        sent(s.fed_all(deltas).1, BlockKind::Text) == brought_by_all(deltas, BlockKind::Text),
        s.fed_all(deltas).0.known_call(index).name.len() > 0 ==> sent(
            s.fed_all(deltas).1,
            BlockKind::ToolUse(index),
        ) == brought_by_all(deltas, BlockKind::ToolUse(index)),
        s.fed_all(deltas).0.known_call(index).name.len() == 0 ==> s.fed_all(deltas).0.waiting(
            BlockKind::ToolUse(index),
        ) == brought_by_all(deltas, BlockKind::ToolUse(index)) && sent(
            s.fed_all(deltas).1,
            BlockKind::ToolUse(index),
        ).len() == 0,
{
    reveal_strlit("");
    let (after, events) = s.fed_all(deltas);
    let kind = BlockKind::ToolUse(index);
    law_streams_lose_nothing(s, deltas, BlockKind::Thinking);
    law_streams_lose_nothing(s, deltas, BlockKind::Text);
    law_streams_lose_nothing(s, deltas, kind);
    law_named_calls_never_wait(s, deltas);
    assert(sent(events, BlockKind::Thinking) + Seq::<char>::empty() =~= sent(
        events,
        BlockKind::Thinking,
    ));
    assert(sent(events, BlockKind::Text) + Seq::<char>::empty() =~= sent(events, BlockKind::Text));
    assert(Seq::<char>::empty() + brought_by_all(deltas, BlockKind::Thinking) =~= brought_by_all(
        deltas,
        BlockKind::Thinking,
    ));
    assert(Seq::<char>::empty() + brought_by_all(deltas, BlockKind::Text) =~= brought_by_all(
        deltas,
        BlockKind::Text,
    ));
    assert(s.waiting(kind) =~= Seq::<char>::empty());
    assert(Seq::<char>::empty() + brought_by_all(deltas, kind) =~= brought_by_all(deltas, kind));
    if after.known_call(index).name.len() > 0 {
        assert(after.waiting(kind) =~= Seq::<char>::empty());
        assert(sent(events, kind) + after.waiting(kind) =~= sent(events, kind));
    } else {
        lemma_nameless_send_nothing(s, deltas, index);
        assert(sent(events, kind) + after.waiting(kind) =~= after.waiting(kind));
    }
}

/// One piece leaves a call nameless only if it was, and then sends nothing of it.
proof fn lemma_piece_of_nameless(s: StreamView, piece: JsonView, index: u64)
    requires
        s.called(piece).0.known_call(index).name.len() == 0,
    ensures
        s.known_call(index).name.len() == 0,
        sent(s.called(piece).1, BlockKind::ToolUse(index)).len() == 0,
{
    reveal_strlit("");
    let i = call_index(piece);
    let kind = BlockKind::ToolUse(i);
    let call = s.known_call(i).heard(piece);
    if call.name.len() > 0 {
        let noted = s.noting(i, CallView { held: ""@, started: true, ..call });
        let (ready, start) = s.announced(i, call);
        let more = ready.added(kind, call.id, call.name, call.held).1;
        lemma_reopening(noted, kind, call.id, call.name);
        lemma_adding(ready, kind, call.id, call.name, call.held);
        assert(s.called(piece).0.tools == noted.tools);
        lemma_sent_concat(start, more, BlockKind::ToolUse(index));
        assert(sent(start, BlockKind::ToolUse(index)).len() == 0);
        assert(sent(more, BlockKind::ToolUse(index)).len() == 0);
    }
}

/// Pieces leave a call nameless only if it was, and then send nothing of it.
proof fn lemma_pieces_of_nameless(s: StreamView, calls: Seq<JsonView>, index: u64)
    requires
        s.called_all(calls).0.known_call(index).name.len() == 0,
    ensures
        s.known_call(index).name.len() == 0,
        sent(s.called_all(calls).1, BlockKind::ToolUse(index)).len() == 0,
    decreases calls.len(),
{
    if calls.len() > 0 {
        let (before, first) = s.called_all(calls.drop_last());
        lemma_piece_of_nameless(before, calls.last(), index);
        lemma_pieces_of_nameless(s, calls.drop_last(), index);
        lemma_sent_concat(first, before.called(calls.last()).1, BlockKind::ToolUse(index));
    }
}

/// A stream that leaves a call nameless sends nothing of it.
proof fn lemma_nameless_send_nothing(s: StreamView, deltas: Seq<JsonView>, index: u64)
    requires
        s.fed_all(deltas).0.known_call(index).name.len() == 0,
    ensures
        s.known_call(index).name.len() == 0,
        sent(s.fed_all(deltas).1, BlockKind::ToolUse(index)).len() == 0,
    decreases deltas.len(),
{
    if deltas.len() > 0 {
        let kind = BlockKind::ToolUse(index);
        let (before, first) = s.fed_all(deltas.drop_last());
        let delta = deltas.last();
        let (thinking, thoughts) = before.thought(delta);
        let (talking, texts) = thinking.told(delta);
        let calls = StreamView::calls_of(delta);
        lemma_speaking(before, BlockKind::Thinking, brought(delta, BlockKind::Thinking));
        lemma_speaking(thinking, BlockKind::Text, brought(delta, BlockKind::Text));
        lemma_pieces_of_nameless(talking, calls, index);
        assert(talking.known_call(index) == before.known_call(index));
        lemma_nameless_send_nothing(s, deltas.drop_last(), index);
        lemma_sent_concat(thoughts, texts, kind);
        lemma_sent_concat(thoughts + texts, talking.called_all(calls).1, kind);
        lemma_sent_concat(first, before.fed(delta).1, kind);
    }
}

/// As long as its block is open, a tool call that has been started keeps to that
/// one block.
pub proof fn law_open_calls_keep_their_block(s: StreamView, piece: JsonView)
    requires
        s.is_open(BlockKind::ToolUse(call_index(piece))),
        s.known_call(call_index(piece)).started,
        s.known_call(call_index(piece)).name.len() > 0,
    ensures
        s.called(piece).0.current == s.current,
        s.called(piece).0.next_index == s.next_index,
{
}

/// No block is started for a tool call before its name has been seen, nor at the
/// end.
pub proof fn law_tool_blocks_wait_for_a_name(
    s: StreamView,
    delta: JsonView,
    finish_reason: Option<Seq<char>>,
)
    ensures
        calls_are_named(s.fed(delta).1),
        calls_are_named(s.finished(finish_reason).1),
{
    let (thinking, thoughts) = s.thought(delta);
    let (talking, texts) = thinking.told(delta);
    let calls = StreamView::calls_of(delta);
    lemma_speaking(s, BlockKind::Thinking, brought(delta, BlockKind::Thinking));
    lemma_speaking(thinking, BlockKind::Text, brought(delta, BlockKind::Text));
    lemma_calling_all(talking, calls);
    lemma_named_concat(thoughts, texts);
    lemma_named_concat(thoughts + texts, talking.called_all(calls).1);
}

/// A message ends with no block open, in keeping with the wire format, whatever
/// was streamed before.
pub proof fn law_finish_leaves_no_block_open(s: StreamView, finish_reason: Option<Seq<char>>)
    ensures
        s.finished(finish_reason).0.current is None,
        s.reader().after_all(s.finished(finish_reason).1) == Some(
            s.finished(finish_reason).0.reader(),
        ),
        s.finished(finish_reason).1.last() == StreamEvent::MessageStop,
{
    lemma_closing(s);
    let (idle, stop) = s.closed();
    let all = s.finished(finish_reason).1;
    let end = all[all.len() - 2];
    lemma_reader_one(idle.reader(), end);
    lemma_reader_concat(s.reader(), stop, seq![end]);
    assert(stop + seq![end] =~= all.drop_last());
}

/// A whole message keeps to the wire format, from its announcement to its end: its
/// blocks start in the order of their indexes, each stops once before the next
/// starts, and none is left open.
pub proof fn law_whole_messages_keep_to_the_wire_format(
    s: StreamView,
    deltas: Seq<JsonView>,
    finish_reason: Option<Seq<char>>,
)
    requires
        s.is_fresh(),
    ensures
        ({
            let reader = Reader { next: 0, open: None };
            let start = StreamEvent::MessageStart { id: s.message_id, model: s.model };
            let (last, events) = s.fed_all(deltas);
            let all = seq![start] + events + last.finished(finish_reason).1;
            reader.after_all(all) == Some(Reader { next: last.next_index, open: None })
        }),
{
    let reader = Reader { next: 0, open: None };
    let start = StreamEvent::MessageStart { id: s.message_id, model: s.model };
    let (last, events) = s.fed_all(deltas);
    let end = last.finished(finish_reason).1;
    assert(s.reader() == reader);
    lemma_reader_one(reader, start);
    law_streams_keep_to_the_wire_format(s, deltas);
    law_finish_leaves_no_block_open(last, finish_reason);
    lemma_closing(last);
    lemma_reader_concat(reader, seq![start], events);
    lemma_reader_concat(reader, seq![start] + events, end);
}

/// The bytes of thought and text are counted over a whole stream, as long as they
/// can be; tool calls count nothing.
proof fn lemma_bytes_are_counted(s: StreamView, deltas: Seq<JsonView>)
    requires
        s.output_chars + bytes_brought(deltas) <= usize::MAX,
    ensures
        s.fed_all(deltas).0.output_chars == s.output_chars + bytes_brought(deltas),
    decreases deltas.len(),
{
    if deltas.len() > 0 {
        let fewer = deltas.drop_last();
        lemma_bytes_are_counted(s, fewer);
        let before = s.fed_all(fewer).0;
        let delta = deltas.last();
        let thinking = before.thought(delta).0;
        let talking = thinking.told(delta).0;
        lemma_speaking(before, BlockKind::Thinking, brought(delta, BlockKind::Thinking));
        lemma_speaking(thinking, BlockKind::Text, brought(delta, BlockKind::Text));
        lemma_calling_all(talking, StreamView::calls_of(delta));
    }
}

/// The tokens that are reported at the end of a stream are a quarter of all the
/// bytes of thought and text that were brought, rounded up, as long as these can be
/// counted.
pub proof fn law_reported_tokens_are_a_quarter_of_the_bytes(
    s: StreamView,
    deltas: Seq<JsonView>,
    finish_reason: Option<Seq<char>>,
)
    requires
        s.is_fresh(),
        bytes_brought(deltas) <= usize::MAX,
    ensures
        ({
            let events = s.fed_all(deltas).0.finished(finish_reason).1;
            events[events.len() - 2] == (StreamEvent::MessageDelta {
                stop_reason: stop_reason(finish_reason),
                output_tokens: quarter_up(bytes_brought(deltas)),
            })
        }),
{
    lemma_bytes_are_counted(s, deltas);
}

/// Thought and text never share a block: after a delta with text, a text block
/// is open; after one with thought alone, a thinking block is.
pub proof fn law_each_kind_has_its_own_block(s: StreamView, delta: JsonView)
    requires
        StreamView::calls_of(delta).len() == 0,
    ensures
        brought(delta, BlockKind::Text).len() > 0 ==> s.fed(delta).0.is_open(BlockKind::Text),
        brought(delta, BlockKind::Text).len() == 0 && brought(delta, BlockKind::Thinking).len() > 0
            ==> s.fed(delta).0.is_open(BlockKind::Thinking),
{
}

} // verus!
