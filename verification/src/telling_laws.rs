//! What a client is told of a completion and of its continuation, said of the payloads
//! that the server sends.

use crate::anthropic_stream::{framed_all, BlockKind, StreamEvent, StreamView};
use crate::decoding::{cut_part, decoded, decoded_chunks, whole_part};
use crate::guard::{
    all_outgoing, one_text, FrontView, GuardView, MetaView, OutgoingView, Phase,
};
use crate::guard_laws::{
    bytes_in, carries_an_open_line, chunks_in, lemma_absorbing, lemma_digesting, lemma_measuring,
    lemma_report_is_lined, Report,
};
use crate::json::JsonView;
use crate::response_laws::law_stop_reasons_have_counterparts;
use crate::sse::{
    chat_chunk, complete_lines, data_frame_text, law_chunk_boundaries_do_not_matter, payloads,
};
use crate::stream_laws::{
    brought, brought_by_all, law_deltas_lose_nothing, law_streams_lose_nothing, lemma_sent_concat,
    sent,
};
use crate::wire::{json_text, parsed_text};
use vstd::prelude::*;

verus! {

/// The payloads that are JSON, parsed; the others are passed over.
pub open spec fn parsed_payloads(payloads: Seq<Seq<char>>) -> Seq<JsonView> {
    payloads.filter(|payload: Seq<char>| parsed_text(payload) is Some).map_values(
        |payload: Seq<char>| parsed_text(payload)->0,
    )
}

/// What some chunks of a completion add.
pub open spec fn deltas_in(chunks: Seq<JsonView>) -> Seq<JsonView> {
    chunks.map_values(|chunk: JsonView| chunk.at("choices"@).nth(0).at("delta"@))
}

/// Why a completion ended: the last reason that some chunks give, whatever else they
/// hold, or else the one that was given before.
pub open spec fn last_reason(before: Option<Seq<char>>, chunks: Seq<JsonView>) -> Option<Seq<char>> {
    let giving = chunks.filter(
        |chunk: JsonView| chunk.at("choices"@).nth(0).field_text("finish_reason"@) is Some,
    );
    if giving.len() == 0 {
        before
    } else {
        giving.last().at("choices"@).nth(0).field_text("finish_reason"@)
    }
}

/// What a client has been told, and what it is to be told at the end.
#[verifier::ext_equal]
struct Told {
    front: FrontView,
    outbox: Seq<OutgoingView>,
    finish_reason: Option<Seq<char>>,
}

/// What the client of a stream has been told.
spec fn told(v: GuardView) -> Told {
    Told { front: v.front, outbox: v.outbox, finish_reason: v.finish_reason }
}

/// With some chunks told to a client of the Messages API.
spec fn told_all(t: Told, chunks: Seq<JsonView>) -> Told {
    match t.front {
        FrontView::Chat => t,
        FrontView::Messages(s) => {
            let (after, events) = s.fed_all(deltas_in(chunks));
            Told {
                front: FrontView::Messages(after),
                outbox: t.outbox + all_outgoing(framed_all(events), true),
                finish_reason: last_reason(t.finish_reason, chunks),
            }
        },
    }
}

/// The chunks that a stream has read and not told yet.
spec fn owed(v: GuardView) -> Seq<JsonView> {
    (if v.pending.len() > 0 {
        seq![v.held]
    } else {
        Seq::empty()
    }) + parsed_payloads(v.queue)
}

/// What the client of a stream will have been told once nothing is owed.
spec fn due(v: GuardView) -> Told {
    told_all(told(v), owed(v))
}

/// Is nothing owed while more is being read?
pub open spec fn owes_nothing_while_reading(v: GuardView) -> bool {
    v.phase == Phase::Reading ==> v.pending.len() == 0 && v.queue.len() == 0
}

/// Feeding two runs of deltas is feeding one and then the other.
proof fn lemma_fed_concat(s: StreamView, a: Seq<JsonView>, b: Seq<JsonView>)
    ensures
        s.fed_all(a + b).0 == s.fed_all(a).0.fed_all(b).0,
        s.fed_all(a + b).1 == s.fed_all(a).1 + s.fed_all(a).0.fed_all(b).1,
    decreases b.len(),
{
    if b.len() == 0 {
        assert(a + b =~= a);
        assert(s.fed_all(a).1 + Seq::<StreamEvent>::empty() =~= s.fed_all(a).1);
    } else {
        lemma_fed_concat(s, a, b.drop_last());
        assert((a + b).drop_last() =~= a + b.drop_last());
        assert(s.fed_all(a + b).1 =~= s.fed_all(a).1 + s.fed_all(a).0.fed_all(b).1);
    }
}

/// The last reason of two runs is that of the second, or else of the first.
proof fn lemma_last_reason_concat(before: Option<Seq<char>>, a: Seq<JsonView>, b: Seq<JsonView>)
    ensures
        last_reason(before, a + b) == last_reason(last_reason(before, a), b),
{
    let gives = |chunk: JsonView|
        chunk.at("choices"@).nth(0).field_text("finish_reason"@) is Some;
    Seq::filter_distributes_over_add(a, b, gives);
    if b.filter(gives).len() == 0 {
        assert(a.filter(gives) + b.filter(gives) =~= a.filter(gives));
    }
}

/// Telling two runs of chunks is telling one and then the other.
proof fn lemma_told_concat(t: Told, a: Seq<JsonView>, b: Seq<JsonView>)
    ensures
        told_all(t, a + b) == told_all(told_all(t, a), b),
{
    match t.front {
        FrontView::Chat => {},
        FrontView::Messages(s) => {
            assert(deltas_in(a + b) =~= deltas_in(a) + deltas_in(b));
            lemma_fed_concat(s, deltas_in(a), deltas_in(b));
            lemma_last_reason_concat(t.finish_reason, a, b);
            let x = s.fed_all(deltas_in(a)).1;
            let y = s.fed_all(deltas_in(a)).0.fed_all(deltas_in(b)).1;
            assert(all_outgoing(framed_all(x + y), true) =~= all_outgoing(framed_all(x), true)
                + all_outgoing(framed_all(y), true));
            assert(told_all(t, a + b) =~= told_all(told_all(t, a), b));
        },
    }
}

/// Telling nothing tells nothing.
proof fn lemma_told_nothing(t: Told)
    ensures
        told_all(t, Seq::empty()) == t,
{
    reveal(Seq::filter);
    assert(deltas_in(Seq::empty()) =~= Seq::empty());
    assert(told_all(t, Seq::empty()) =~= t);
}

/// Settling the payload at hand tells it.
proof fn lemma_settling_tells(v: GuardView)
    ensures
        told(v.settled()) == told_all(told(v), seq![v.held]),
{
    let one = seq![v.held];
    match v.front {
        FrontView::Chat => {},
        FrontView::Messages(s) => {
            let gives = |chunk: JsonView|
                chunk.at("choices"@).nth(0).field_text("finish_reason"@) is Some;
            reveal_with_fuel(Seq::filter, 2);
            assert(one.drop_last() =~= Seq::empty());
            assert(one.last() == v.held);
            reveal_with_fuel(StreamView::fed_all, 2);
            assert(deltas_in(one).drop_last() =~= Seq::empty());
            assert(deltas_in(one).last() == v.held.at("choices"@).nth(0).at("delta"@));
            let events = s.fed(v.held.at("choices"@).nth(0).at("delta"@)).1;
            assert(s.fed_all(deltas_in(one)).1 =~= events);
            assert(told(v.settled()) =~= told_all(told(v), one));
        },
    }
}

/// The payloads of two runs are parsed one run after the other.
proof fn lemma_parsed_concat(a: Seq<Seq<char>>, b: Seq<Seq<char>>)
    ensures
        parsed_payloads(a + b) == parsed_payloads(a) + parsed_payloads(b),
{
    Seq::filter_distributes_over_add(a, b, |payload: Seq<char>| parsed_text(payload) is Some);
    assert(parsed_payloads(a + b) =~= parsed_payloads(a) + parsed_payloads(b));
}

/// One payload is parsed, or passed over.
proof fn lemma_parsed_one(payload: Seq<char>)
    ensures
        parsed_payloads(seq![payload]) == match parsed_text(payload) {
            Some(chunk) => seq![chunk],
            None => Seq::empty(),
        },
{
    reveal_with_fuel(Seq::filter, 2);
    assert(seq![payload].drop_last() =~= Seq::empty());
    assert(seq![payload].last() == payload);
    assert(parsed_payloads(seq![payload]) =~= match parsed_text(payload) {
        Some(chunk) => seq![chunk],
        None => Seq::empty(),
    });
}

/// Taking in a payload changes nothing about what the client is due.
proof fn lemma_payload_stays_due(v: GuardView)
    requires
        v.pending.len() == 0,
        v.queue.len() > 0,
    ensures
        due(v.took_payload()) == due(v),
{
    let rest = GuardView { queue: v.queue.drop_first(), ..v };
    let w = v.took_payload();
    lemma_absorbing(rest, parsed_text(v.queue[0]));
    assert(v.queue =~= seq![v.queue[0]] + rest.queue);
    lemma_parsed_concat(seq![v.queue[0]], rest.queue);
    lemma_parsed_one(v.queue[0]);
    let later = parsed_payloads(rest.queue);
    assert(owed(v) =~= parsed_payloads(v.queue));
    match parsed_text(v.queue[0]) {
        Some(chunk) => {
            assert(owed(v) =~= seq![chunk] + later);
            if w.pending.len() == 0 {
                lemma_absorbed_is_told(rest, chunk);
                assert(owed(w) =~= later);
                lemma_told_concat(told(v), seq![chunk], later);
            } else {
                lemma_absorbed_is_told(rest, chunk);
                assert(owed(w) =~= owed(v));
            }
        },
        None => {
            assert(owed(w) =~= owed(v));
        },
    }
}

/// A payload that finishes no step is told at once, and one that does is held.
proof fn lemma_absorbed_is_told(v: GuardView, chunk: JsonView)
    requires
        v.pending.len() == 0,
    ensures
        ({
            let w = v.absorbed(Some(chunk));
            &&& w.queue == v.queue
            &&& w.pending.len() == 0 ==> told(w) == told_all(told(v), seq![chunk])
            &&& w.pending.len() > 0 ==> told(w) == told(v) && w.held == chunk
        }),
{
    let w = v.absorbed(Some(chunk));
    lemma_absorbing(v, Some(chunk));
    let next = GuardView {
        tracker: w.tracker,
        trace: w.trace,
        held: chunk,
        pending: w.pending,
        meta: w.meta,
        meta_seen: true,
        ..v
    };
    lemma_settling_tells(next);
    assert(told(next) == told(v));
    if w.pending.len() == 0 {
        assert(w == next.settled());
    } else {
        assert(w == next);
    }
}

/// Taking in the payloads of a chunk changes nothing about what the client is due.
proof fn lemma_chunk_stays_due(v: GuardView)
    requires
        v.front is Messages,
    ensures
        due(v.digested()) == due(v),
        owes_nothing_while_reading(v.digested()),
    decreases v.queue.len(),
{
    lemma_digesting(v);
    if v.pending.len() > 0 {
        assert(owed(v.digested()) =~= owed(v));
    } else if v.queue.len() == 0 {
        assert(owed(v.digested()) =~= owed(v));
    } else {
        let rest = GuardView { queue: v.queue.drop_first(), ..v };
        lemma_absorbing(rest, parsed_text(v.queue[0]));
        lemma_payload_stays_due(v);
        lemma_chunk_stays_due(v.took_payload());
    }
}

/// A verdict that finds no repetition changes nothing about what the client is due.
proof fn lemma_verdict_stays_due(
    v: GuardView,
    similarities: Seq<u64>,
    rendered: Seq<Seq<char>>,
    elapsed: Seq<char>,
)
    requires
        v.front is Messages,
        v.phase == Phase::Judging,
        v.after_measure(similarities, rendered, elapsed).phase != Phase::FindSlot,
    ensures
        due(v.after_measure(similarities, rendered, elapsed)) == due(v),
        owes_nothing_while_reading(v.after_measure(similarities, rendered, elapsed)),
{
    let w = v.after_measure(similarities, rendered, elapsed);
    lemma_measuring(v, similarities, rendered, elapsed);
    if v.pending.len() > 1 {
        assert(owed(w) =~= owed(v));
    } else if v.pending.len() == 1 {
        let next = GuardView { phase: Phase::Reading, pending: v.pending.drop_first(), ..v };
        lemma_settling_tells(next);
        assert(told(next) == told(v));
        let later = parsed_payloads(v.queue);
        assert(owed(v) =~= seq![v.held] + later);
        assert(owed(next.settled()) =~= later);
        lemma_told_concat(told(v), seq![v.held], later);
        lemma_chunk_stays_due(next.settled());
        assert(w == v || w == next.settled().digested());
    }
}

/// The payloads that a report completes.
pub open spec fn payloads_in(v: GuardView, report: Report) -> Seq<Seq<char>> {
    match report {
        Report::Bytes(bytes) => payloads(
            complete_lines(v.carry + decoded(whole_part(v.tail + bytes))),
        ),
        _ => Seq::empty(),
    }
}

/// Bytes add to what the client is due the payloads that they complete.
proof fn lemma_bytes_are_due(v: GuardView, bytes: Seq<u8>)
    requires
        v.front is Messages,
        v.phase == Phase::Reading,
        owes_nothing_while_reading(v),
        carries_an_open_line(v),
    ensures
        ({
            let heard = v.carry + decoded(whole_part(v.tail + bytes));
            let w = v.after_bytes(bytes);
            &&& due(w) == told_all(due(v), parsed_payloads(payloads(complete_lines(heard))))
            &&& w.front is Messages
            &&& owes_nothing_while_reading(w)
        }),
{
    let all = v.tail + bytes;
    let text = decoded(whole_part(all));
    let next = GuardView { tail: cut_part(all), ..v };
    let new = parsed_payloads(payloads(complete_lines(v.carry + text)));
    reveal(Seq::filter);
    assert(owed(v) =~= Seq::empty());
    lemma_told_nothing(told(v));
    if text.len() == 0 {
        assert(v.carry + text =~= v.carry);
        assert(payloads(complete_lines(v.carry)) =~= Seq::empty());
        assert(new =~= Seq::empty());
        assert(owed(next) =~= Seq::empty());
        assert(told(next) == told(v));
    } else {
        let heard = next.hearing(text);
        assert(owed(heard) =~= new);
        assert(told(heard) == told(v));
        lemma_digesting(heard);
        lemma_chunk_stays_due(heard);
    }
}

/// One report of a run adds to what the client is due the payloads that it completes.
proof fn lemma_report_is_due(v: GuardView, report: Report)
    requires
        v.front is Messages,
        v.takes(report),
        owes_nothing_while_reading(v),
        carries_an_open_line(v),
    ensures
        due(v.after(report)) == told_all(due(v), parsed_payloads(payloads_in(v, report))),
        v.after(report).front is Messages,
        owes_nothing_while_reading(v.after(report)),
{
    reveal(GuardView::after);
    match report {
        Report::Bytes(bytes) => {
            lemma_bytes_are_due(v, bytes);
        },
        Report::Measured(similarities, rendered, elapsed) => {
            lemma_measuring(v, similarities, rendered, elapsed);
            lemma_verdict_stays_due(v, similarities, rendered, elapsed);
            reveal(Seq::filter);
            assert(parsed_payloads(Seq::empty()) =~= Seq::empty());
            lemma_told_nothing(due(v));
        },
        _ => {},
    }
}

/// Over a run without a repetition, the client is due every payload of it.
proof fn lemma_run_is_due(v: GuardView, reports: Seq<Report>)
    requires
        v.front is Messages,
        v.passes(reports),
        owes_nothing_while_reading(v),
        carries_an_open_line(v),
    ensures
        ({
            let heard = v.carry + decoded_chunks(v.tail, chunks_in(reports)).0;
            let w = v.after_all(reports);
            &&& due(w) == told_all(due(v), parsed_payloads(payloads(complete_lines(heard))))
            &&& w.front is Messages
            &&& owes_nothing_while_reading(w)
        }),
    decreases reports.len(),
{
    if reports.len() == 0 {
        assert(v.carry + Seq::<char>::empty() =~= v.carry);
        reveal(Seq::filter);
        assert(payloads(complete_lines(v.carry)) =~= Seq::empty());
        assert(parsed_payloads(Seq::empty()) =~= Seq::empty());
        lemma_told_nothing(due(v));
    } else {
        let w = v.after(reports[0]);
        let rest = reports.drop_first();
        lemma_report_is_due(v, reports[0]);
        lemma_report_is_lined(v, reports[0]);
        lemma_run_is_due(w, rest);
        let more = decoded_chunks(w.tail, chunks_in(rest)).0;
        let first = parsed_payloads(payloads_in(v, reports[0]));
        let later = parsed_payloads(payloads(complete_lines(w.carry + more)));
        lemma_told_concat(due(v), first, later);
        if reports[0] is Bytes {
            let text = decoded(whole_part(v.tail + bytes_in(reports[0])));
            let chunks = chunks_in(reports);
            assert(chunks.drop_first() =~= chunks_in(rest));
            law_chunk_boundaries_do_not_matter(v.carry, text, more);
            lemma_parsed_concat(
                payloads(complete_lines(v.carry + text)),
                payloads(complete_lines(w.carry + more)),
            );
        } else {
            reveal(Seq::filter);
            assert(first =~= Seq::empty());
            assert(first + later =~= later);
        }
    }
}

/// As long as nothing is found to repeat, a client of the Messages API is told
/// everything that is generated, in whatever chunks it comes: the thoughts and the texts
/// that it gets, joined, are those of the deltas of all payloads that are JSON, in order,
/// and so is the input of every tool call that has been named. The reason why the
/// completion ended is the last that any of these payloads gives.
pub proof fn law_messages_are_told_everything(v: GuardView, reports: Seq<Report>)
    requires
        v.front is Messages,
        v.passes(reports),
        v.phase == Phase::Reading,
        v.after_all(reports).phase == Phase::Reading,
        owes_nothing_while_reading(v),
        carries_an_open_line(v),
    ensures
        ({
            let w = v.after_all(reports);
            let heard = v.carry + decoded_chunks(v.tail, chunks_in(reports)).0;
            let chunks = parsed_payloads(payloads(complete_lines(heard)));
            &&& w.finish_reason == last_reason(v.finish_reason, chunks)
            &&& exists|events: Seq<StreamEvent>|
                {
                    &&& w.outbox == v.outbox + all_outgoing(#[trigger] framed_all(events), true)
                    &&& sent(events, BlockKind::Thinking) == brought_by_all(
                        deltas_in(chunks),
                        BlockKind::Thinking,
                    )
                    &&& sent(events, BlockKind::Text) == brought_by_all(
                        deltas_in(chunks),
                        BlockKind::Text,
                    )
                    &&& v.front matches FrontView::Messages(s) && w.front matches FrontView::Messages(
                        t,
                    ) && forall|kind: BlockKind| #[trigger]
                        sent(events, kind) + t.waiting(kind) == s.waiting(kind) + brought_by_all(
                            deltas_in(chunks),
                            kind,
                        )
                }
        }),
{
    let w = v.after_all(reports);
    let heard = v.carry + decoded_chunks(v.tail, chunks_in(reports)).0;
    let chunks = parsed_payloads(payloads(complete_lines(heard)));
    lemma_run_is_due(v, reports);
    reveal(Seq::filter);
    assert(owed(v) =~= Seq::empty());
    assert(owed(w) =~= Seq::empty());
    lemma_told_nothing(told(v));
    lemma_told_nothing(told(w));
    assert(told(w) == told_all(told(v), chunks));
    match v.front {
        FrontView::Messages(s) => {
            let (t, events) = s.fed_all(deltas_in(chunks));
            assert(w.front == FrontView::Messages(t));
            assert(w.outbox == v.outbox + all_outgoing(framed_all(events), true));
            assert forall|kind: BlockKind| #[trigger] sent(events, kind) + t.waiting(kind)
                == s.waiting(kind) + brought_by_all(deltas_in(chunks), kind) by {
                law_streams_lose_nothing(s, deltas_in(chunks), kind);
            }
            let thought = sent(events, BlockKind::Thinking);
            let said = sent(events, BlockKind::Text);
            assert(thought + t.waiting(BlockKind::Thinking) =~= thought);
            assert(said + t.waiting(BlockKind::Text) =~= said);
            assert(s.waiting(BlockKind::Thinking) + brought_by_all(
                deltas_in(chunks),
                BlockKind::Thinking,
            ) =~= brought_by_all(deltas_in(chunks), BlockKind::Thinking));
            assert(s.waiting(BlockKind::Text) + brought_by_all(deltas_in(chunks), BlockKind::Text)
                =~= brought_by_all(deltas_in(chunks), BlockKind::Text));
        },
        FrontView::Chat => {},
    }
}

/// Where a completion ends by itself, a client of the Messages API is told why: for the
/// use of a tool, for want of tokens or of itself, as the last reason has it that any of
/// its payloads gave, whatever the deltas of these payloads hold; of itself, if none gave
/// one. With that the message stops.
pub proof fn law_messages_stop_for_the_last_reason(v: GuardView, reports: Seq<Report>)
    requires
        v.front is Messages,
        v.passes(reports),
        v.phase == Phase::Reading,
        v.after_all(reports).phase == Phase::Reading,
        owes_nothing_while_reading(v),
        carries_an_open_line(v),
    ensures
        ({
            let w = v.after_all(reports);
            let heard = v.carry + decoded_chunks(v.tail, chunks_in(reports)).0;
            let chunks = parsed_payloads(payloads(complete_lines(heard)));
            let reason = last_reason(v.finish_reason, chunks);
            exists|events: Seq<StreamEvent>|
                {
                    &&& w.after_end().outbox == w.outbox + all_outgoing(
                        #[trigger] framed_all(events),
                        false,
                    )
                    &&& events.len() >= 2
                    &&& events.last() == StreamEvent::MessageStop
                    &&& events[events.len() - 2] matches StreamEvent::MessageDelta {
                        stop_reason,
                        ..
                    } && {
                        &&& stop_reason == "tool_use"@ <==> reason == Some("tool_calls"@)
                        &&& stop_reason == "max_tokens"@ <==> reason == Some("length"@)
                        &&& stop_reason == "end_turn"@ <==> reason != Some("tool_calls"@) && reason
                            != Some("length"@)
                    }
                }
        }),
{
    law_messages_are_told_everything(v, reports);
    let w = v.after_all(reports);
    law_stop_reasons_have_counterparts(w.finish_reason);
    match w.front {
        FrontView::Messages(t) => {
            let events = t.finished(w.finish_reason).1;
            assert(w.after_end().outbox == w.outbox + all_outgoing(framed_all(events), false));
        },
        FrontView::Chat => {},
    }
}

/// What some replies of a continuation say, joined.
pub open spec fn contents_of(replies: Seq<JsonView>) -> Seq<char> {
    replies.map_values(|reply: JsonView| reply.text_or("content"@, ""@)).flatten()
}

/// How many replies of a continuation say that it stops.
pub open spec fn stops_in(replies: Seq<JsonView>) -> nat {
    replies.filter(|reply: JsonView| reply.flag("stop"@)).len()
}

/// One more payload is parsed behind the others, or passed over.
proof fn lemma_parsed_push(replies: Seq<Seq<char>>)
    requires
        replies.len() > 0,
    ensures
        parsed_payloads(replies) == match parsed_text(replies.last()) {
            Some(reply) => parsed_payloads(replies.drop_last()).push(reply),
            None => parsed_payloads(replies.drop_last()),
        },
{
    let fewer = replies.drop_last();
    assert(replies =~= fewer + seq![replies.last()]);
    lemma_parsed_concat(fewer, seq![replies.last()]);
    lemma_parsed_one(replies.last());
    assert(parsed_payloads(replies) =~= match parsed_text(replies.last()) {
        Some(reply) => parsed_payloads(fewer).push(reply),
        None => parsed_payloads(fewer),
    });
}

/// One more reply says its content behind the others.
proof fn lemma_contents_push(replies: Seq<JsonView>, reply: JsonView)
    ensures
        contents_of(replies.push(reply)) == contents_of(replies) + reply.text_or("content"@, ""@),
        stops_in(replies.push(reply)) == stops_in(replies) + if reply.flag("stop"@) {
            1nat
        } else {
            0nat
        },
{
    let get = |reply: JsonView| reply.text_or("content"@, ""@);
    assert(replies.push(reply).map_values(get) =~= replies.map_values(get).push(get(reply)));
    replies.map_values(get).lemma_flatten_push(get(reply));
    reveal(Seq::filter);
    assert(replies.push(reply).drop_last() =~= replies);
}

/// A delta that only says something is sent as text, and nothing else is.
proof fn lemma_content_is_sent(s: StreamView, content: Seq<char>)
    ensures
        ({
            let events = s.fed(one_text("content"@, content)).1;
            &&& sent(events, BlockKind::Text) == content
            &&& forall|kind: BlockKind|
                kind != BlockKind::Text ==> #[trigger] sent(events, kind) == Seq::<char>::empty()
        }),
{
    let delta = one_text("content"@, content);
    let (t, events) = s.fed(delta);
    reveal_strlit("content");
    reveal_strlit("reasoning_content");
    reveal_strlit("tool_calls");
    reveal_strlit("");
    assert("content"@.len() == 7 && "reasoning_content"@.len() == 17 && "tool_calls"@.len() == 10);
    assert(delta.field_text("content"@) == Some(content));
    assert(delta.field("reasoning_content"@) is None);
    assert(delta.field("tool_calls"@) is None);
    assert(StreamView::calls_of(delta) =~= Seq::empty());
    law_deltas_lose_nothing(s, delta, BlockKind::Text);
    assert(sent(events, BlockKind::Text) + t.waiting(BlockKind::Text) =~= sent(
        events,
        BlockKind::Text,
    ));
    assert(s.waiting(BlockKind::Text) + content =~= content);
    assert(t.tools == s.tools);
    assert forall|kind: BlockKind| kind != BlockKind::Text implies #[trigger] sent(events, kind)
        == Seq::<char>::empty() by {
        law_deltas_lose_nothing(s, delta, kind);
        assert(brought(delta, kind).len() == 0);
        assert(t.waiting(kind) == s.waiting(kind));
        assert(sent(events, kind).len() == 0);
    }
}

/// What a continuation says is told to a client of the Messages API.
proof fn lemma_messages_hear_the_continuation(v: GuardView, replies: Seq<Seq<char>>) -> (events: Seq<
    StreamEvent,
>)
    requires
        v.front is Messages,
    ensures
        v.continued_all(replies).front is Messages,
        v.continued_all(replies).outbox == v.outbox + all_outgoing(framed_all(events), true),
        sent(events, BlockKind::Text) == contents_of(parsed_payloads(replies)),
        forall|kind: BlockKind|
            kind != BlockKind::Text ==> #[trigger] sent(events, kind) == Seq::<char>::empty(),
    decreases replies.len(),
{
    if replies.len() == 0 {
        reveal(Seq::filter);
        let none = Seq::<StreamEvent>::empty();
        assert(parsed_payloads(replies) =~= Seq::empty());
        assert(contents_of(Seq::empty()) =~= Seq::empty());
        assert(v.outbox + all_outgoing(framed_all(none), true) =~= v.outbox);
        none
    } else {
        let fewer = replies.drop_last();
        let before = lemma_messages_hear_the_continuation(v, fewer);
        let w = v.continued_all(fewer);
        lemma_parsed_push(replies);
        let said = contents_of(parsed_payloads(fewer));
        reveal_strlit("");
        match (w.front, parsed_text(replies.last())) {
            (FrontView::Messages(s), Some(reply)) => {
                let content = reply.text_or("content"@, ""@);
                lemma_contents_push(parsed_payloads(fewer), reply);
                if content.len() == 0 {
                    assert(said + content =~= said);
                    before
                } else {
                    let new = s.fed(one_text("content"@, content)).1;
                    lemma_content_is_sent(s, content);
                    let all = before + new;
                    assert(all_outgoing(framed_all(all), true) =~= all_outgoing(
                        framed_all(before),
                        true,
                    ) + all_outgoing(framed_all(new), true));
                    assert((v.outbox + all_outgoing(framed_all(before), true)) + all_outgoing(
                        framed_all(new),
                        true,
                    ) =~= v.outbox + all_outgoing(framed_all(all), true));
                    lemma_sent_concat(before, new, BlockKind::Text);
                    assert forall|kind: BlockKind| kind != BlockKind::Text implies #[trigger] sent(
                        all,
                        kind,
                    ) == Seq::<char>::empty() by {
                        lemma_sent_concat(before, new, kind);
                        assert(sent(before, kind) + sent(new, kind) =~= Seq::empty());
                    }
                    all
                }
            },
            _ => before,
        }
    }
}

/// A client of the Messages API gets, over a run of continuation payloads, the contents
/// of all that are JSON as text, in order, and nothing else: whichever of them says that
/// the continuation stops, and whether any does.
pub proof fn law_continuation_is_told_in_messages(v: GuardView, replies: Seq<Seq<char>>)
    requires
        v.front is Messages,
    ensures
        exists|events: Seq<StreamEvent>|
            {
                &&& v.continued_all(replies).outbox == v.outbox + all_outgoing(
                    #[trigger] framed_all(events),
                    true,
                )
                &&& sent(events, BlockKind::Text) == contents_of(parsed_payloads(replies))
                &&& forall|kind: BlockKind|
                    kind != BlockKind::Text ==> #[trigger] sent(events, kind) == Seq::<
                        char,
                    >::empty()
            },
{
    let events = lemma_messages_hear_the_continuation(v, replies);
    assert(v.continued_all(replies).outbox == v.outbox + all_outgoing(framed_all(events), true));
}

/// A chunk for a client of chat completions: its delta, why it ends, and whether it is
/// vital.
pub struct ChatPiece {
    pub delta: JsonView,
    pub finish_reason: Option<Seq<char>>,
    pub vital: bool,
}

/// Chunks of a completion as a client of chat completions gets them.
pub open spec fn framed_pieces(meta: MetaView, pieces: Seq<ChatPiece>) -> Seq<OutgoingView> {
    pieces.map_values(
        |piece: ChatPiece|
            (
                data_frame_text(
                    json_text(
                        chat_chunk(
                            meta.id,
                            meta.model,
                            meta.created,
                            piece.delta,
                            piece.finish_reason,
                        ),
                    ),
                ),
                piece.vital,
            ),
    )
}

/// The contents of some chunks, joined.
pub open spec fn contents_in(pieces: Seq<ChatPiece>) -> Seq<char> {
    pieces.map_values(|piece: ChatPiece| piece.delta.text_or("content"@, ""@)).flatten()
}

/// How many of some chunks say that the completion stops.
pub open spec fn stopping_pieces(pieces: Seq<ChatPiece>) -> nat {
    pieces.filter(|piece: ChatPiece| piece.finish_reason == Some("stop"@)).len()
}

/// One more chunk says its content behind the others.
proof fn lemma_pieces_push(pieces: Seq<ChatPiece>, piece: ChatPiece)
    ensures
        contents_in(pieces.push(piece)) == contents_in(pieces) + piece.delta.text_or(
            "content"@,
            ""@,
        ),
        stopping_pieces(pieces.push(piece)) == stopping_pieces(pieces) + if piece.finish_reason
            == Some("stop"@) {
            1nat
        } else {
            0nat
        },
        forall|meta: MetaView| #[trigger]
            framed_pieces(meta, pieces.push(piece)) == framed_pieces(meta, pieces)
                + framed_pieces(meta, seq![piece]),
{
    let get = |piece: ChatPiece| piece.delta.text_or("content"@, ""@);
    assert(pieces.push(piece).map_values(get) =~= pieces.map_values(get).push(get(piece)));
    pieces.map_values(get).lemma_flatten_push(get(piece));
    reveal(Seq::filter);
    assert(pieces.push(piece).drop_last() =~= pieces);
    assert forall|meta: MetaView| #[trigger] framed_pieces(meta, pieces.push(piece))
        == framed_pieces(meta, pieces) + framed_pieces(meta, seq![piece]) by {
        assert(framed_pieces(meta, pieces.push(piece)) =~= framed_pieces(meta, pieces)
            + framed_pieces(meta, seq![piece]));
    }
}

/// Does a chunk either say something or end the completion, and do nothing else?
pub open spec fn says_or_stops(piece: ChatPiece) -> bool {
    ||| piece.finish_reason is None && piece.vital && exists|content: Seq<char>|
        piece.delta == #[trigger] one_text("content"@, content) && content.len() > 0
    ||| piece.finish_reason == Some("stop"@) && !piece.vital && piece.delta == JsonView::Object(
        Map::empty(),
    )
}

/// What a continuation says is passed on to a client of chat completions.
proof fn lemma_chat_hears_the_continuation(v: GuardView, replies: Seq<Seq<char>>) -> (pieces: Seq<
    ChatPiece,
>)
    requires
        v.front is Chat,
    ensures
        v.continued_all(replies).front is Chat,
        v.continued_all(replies).meta == v.meta,
        v.continued_all(replies).outbox == v.outbox + framed_pieces(v.meta, pieces),
        contents_in(pieces) == contents_of(parsed_payloads(replies)),
        stopping_pieces(pieces) == stops_in(parsed_payloads(replies)),
        forall|i: int| 0 <= i < pieces.len() ==> says_or_stops(#[trigger] pieces[i]),
    decreases replies.len(),
{
    if replies.len() == 0 {
        reveal(Seq::filter);
        let none = Seq::<ChatPiece>::empty();
        assert(parsed_payloads(replies) =~= Seq::empty());
        assert(contents_of(Seq::empty()) =~= Seq::empty());
        assert(contents_in(none) =~= Seq::empty());
        assert(v.outbox + framed_pieces(v.meta, none) =~= v.outbox);
        none
    } else {
        let fewer = replies.drop_last();
        let before = lemma_chat_hears_the_continuation(v, fewer);
        let w = v.continued_all(fewer);
        lemma_parsed_push(replies);
        match parsed_text(replies.last()) {
            Some(reply) => {
                lemma_contents_push(parsed_payloads(fewer), reply);
                lemma_chat_hears_a_reply(w, v.outbox, before, reply)
            },
            None => before,
        }
    }
}

/// What one reply of a continuation says is passed on to a client of chat completions.
proof fn lemma_chat_hears_a_reply(
    w: GuardView,
    outbox: Seq<OutgoingView>,
    before: Seq<ChatPiece>,
    reply: JsonView,
) -> (pieces: Seq<ChatPiece>)
    requires
        w.front is Chat,
        w.outbox == outbox + framed_pieces(w.meta, before),
        forall|i: int| 0 <= i < before.len() ==> says_or_stops(#[trigger] before[i]),
    ensures
        w.continued(Some(reply)).front is Chat,
        w.continued(Some(reply)).meta == w.meta,
        w.continued(Some(reply)).outbox == outbox + framed_pieces(w.meta, pieces),
        contents_in(pieces) == contents_in(before) + reply.text_or("content"@, ""@),
        stopping_pieces(pieces) == stopping_pieces(before) + if reply.flag("stop"@) {
            1nat
        } else {
            0nat
        },
        forall|i: int| 0 <= i < pieces.len() ==> says_or_stops(#[trigger] pieces[i]),
{
    reveal_strlit("");
    let content = reply.text_or("content"@, ""@);
    let saying = ChatPiece {
        delta: one_text("content"@, content),
        finish_reason: None,
        vital: true,
    };
    let stopping = ChatPiece {
        delta: JsonView::Object(Map::empty()),
        finish_reason: Some("stop"@),
        vital: false,
    };
    assert(contents_in(before) + ""@ =~= contents_in(before));
    let x = w.saying(reply.field_text("content"@));
    let said = if content.len() == 0 {
        assert(content =~= ""@);
        before
    } else {
        lemma_pieces_push(before, saying);
        assert(saying.delta.field_text("content"@) == Some(content));
        assert(x.outbox =~= outbox + framed_pieces(w.meta, before.push(saying)));
        before.push(saying)
    };
    assert(x.outbox == outbox + framed_pieces(w.meta, said));
    assert(x.front is Chat && x.meta == w.meta);
    if reply.flag("stop"@) {
        lemma_pieces_push(said, stopping);
        assert(contents_in(said) + ""@ =~= contents_in(said));
        assert(x.stopping(true).outbox =~= outbox + framed_pieces(w.meta, said.push(stopping)));
        said.push(stopping)
    } else {
        said
    }
}

/// A client of chat completions gets, over a run of continuation payloads, the contents
/// of all that are JSON, in order, each in a chunk of the completion that was cut short;
/// and for each of them that says that the continuation stops, a chunk that says so.
pub proof fn law_continuation_is_told_in_chunks(v: GuardView, replies: Seq<Seq<char>>)
    requires
        v.front is Chat,
    ensures
        exists|pieces: Seq<ChatPiece>|
            {
                &&& v.continued_all(replies).outbox == v.outbox + #[trigger] framed_pieces(
                    v.meta,
                    pieces,
                )
                &&& contents_in(pieces) == contents_of(parsed_payloads(replies))
                &&& stopping_pieces(pieces) == stops_in(parsed_payloads(replies))
                &&& forall|i: int| 0 <= i < pieces.len() ==> says_or_stops(#[trigger] pieces[i])
            },
{
    let pieces = lemma_chat_hears_the_continuation(v, replies);
    assert(v.continued_all(replies).outbox == v.outbox + framed_pieces(v.meta, pieces));
}

} // verus!
