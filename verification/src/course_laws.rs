//! What each report does to a guarded stream, from its beginning to its end.

use crate::anthropic_stream::{framed_all, BlockKind, StreamEvent, StreamView};
use crate::decoding::{cut_part, decoded, whole_part};
use crate::guard::{
    all_outgoing, best_of, one_text, parsed_reply, ActionView, FrontView, GuardView, Phase,
};
use crate::guard_laws::{
    carries_an_open_line, lemma_absorbing, lemma_continuing, Report,
};
use crate::json::JsonView;
use crate::response_laws::law_stop_reasons_have_counterparts;
use crate::sse::{
    complete_lines, law_chunk_boundaries_do_not_matter, open_line, payloads,
};
use crate::stream_laws::{brought, law_deltas_lose_nothing, sent};
use crate::telling_laws::{framed_pieces, owes_nothing_while_reading, ChatPiece};
use crate::terms::query_of;
use crate::text::{decimal, joined};
use crate::tracker::{
    is_best_match, law_best_match_is_unique, law_finished_steps_stay, profiles, reason_text, snippet,
};
use crate::upstream::{
    closing_text, completion_request, processing_slot, rendered_prompt, template_request,
    trace_piece,
};
use crate::wire::{json_text, parsed_bytes, parsed_text};
use vstd::prelude::*;

verus! {

/// A stream begins with nothing read, queued or found, on behalf of all the messages of
/// the request; once it is connected, it reads, with nothing carried over and nothing
/// owed.
pub proof fn law_streams_begin_with_nothing(
    front: FrontView,
    body: JsonView,
    threshold: u64,
    min_step_words: nat,
    request_id: Seq<char>,
)
    ensures
        ({
            let v = GuardView::begun(front, body, threshold, min_step_words, request_id);
            let w = v.after_connect(true);
            &&& v.phase == Phase::Connect
            &&& v.front == front
            &&& v.body == body
            &&& body.field("messages"@) matches Some(messages) ==> v.messages == messages
            &&& body.field("messages"@) is None ==> v.messages == JsonView::Array(Seq::empty())
            &&& v.outbox.len() == 0
            &&& v.tracker.threshold == threshold
            &&& v.tracker.min_step_words == min_step_words
            &&& v.tracker.request_id == request_id
            &&& v.tracker.buffer.len() == 0
            &&& v.tracker.steps.len() == 0
            &&& v.trace.len() == 0
            &&& w == (GuardView { phase: Phase::Reading, ..v })
            &&& w.tail.len() == 0
            &&& w.finish_reason is None
            &&& !w.saw_done
            &&& !w.meta_seen
            &&& w.watched()
            &&& owes_nothing_while_reading(w)
            &&& carries_an_open_line(w)
        }),
{
    let v = GuardView::begun(front, body, threshold, min_step_words, request_id);
    assert(v.after_connect(true) =~= (GuardView { phase: Phase::Reading, ..v }));
}

/// What is queued for the client is sent before anything else is done, first things first
/// and one at a time; only with nothing queued does a stream go on, and what it asks for
/// then depends on where it stands.
pub proof fn law_queued_texts_go_first(v: GuardView)
    ensures
        v.outbox.len() > 0 ==> {
            &&& v.next().1 == ActionView::Send(v.outbox[0].0, v.outbox[0].1)
            &&& v.outbox == seq![v.outbox[0]] + v.next().0.outbox
            &&& v.next().0 == (GuardView { outbox: v.next().0.outbox, ..v })
        },
        v.outbox.len() == 0 ==> {
            &&& v.next().0 == v
            &&& v.phase == Phase::Connect <==> v.next().1 is Connect
            &&& v.phase == Phase::Reading <==> v.next().1 is NextChunk
            &&& v.phase == Phase::Judging <==> v.next().1 is Measure
            &&& v.phase == Phase::FindSlot <==> v.next().1 is FindSlot
            &&& v.phase == Phase::RenderPrompt <==> v.next().1 is RenderPrompt
            &&& v.phase == Phase::Complete <==> v.next().1 is Complete
            &&& v.phase == Phase::Continuing <==> v.next().1 is NextCompletionChunk
            &&& v.phase == Phase::Closed <==> v.next().1 is Finished
            &&& v.next().1 matches ActionView::Connect(text) ==> text == json_text(v.body)
            &&& v.next().1 matches ActionView::RenderPrompt(text) ==> text == json_text(
                template_request(v.messages),
            )
            &&& v.next().1 matches ActionView::Complete(text) ==> text == json_text(
                completion_request(v.prompt, v.body, v.slot),
            )
        },
{
    if v.outbox.len() > 0 {
        assert(v.outbox =~= seq![v.outbox[0]] + v.next().0.outbox);
    }
}

/// What a payload adds is watched, whatever kind of text it is, and every step that it
/// finishes is to be judged, each against the steps before it. Until all of them have
/// been, nothing of the payload is told. A payload that is no JSON changes nothing.
pub proof fn law_every_finished_step_is_judged(v: GuardView, chunk: JsonView)
    ensures
        ({
            let w = v.absorbed(Some(chunk));
            let delta = chunk.at("choices"@).nth(0).at("delta"@);
            let piece = match delta.field_text("reasoning_content"@) {
                Some(thought) => thought,
                None => delta.text_or("content"@, Seq::empty()),
            };
            let before = v.tracker.steps.len();
            &&& w.trace == v.trace + piece
            &&& piece.len() > 0 ==> w.tracker == v.tracker.fed(piece)
            &&& piece.len() == 0 ==> w.tracker == v.tracker
            &&& w.pending.len() == w.tracker.steps.len() - before
            &&& forall|i: int|
                0 <= i < w.pending.len() ==> {
                    &&& #[trigger] w.pending[i] == query_of(
                        profiles(w.tracker.steps.take(before + i + 1)),
                    )
                    &&& w.pending[i].step_idx == before + i
                    &&& w.pending[i].rivals.len() == before + i
                }
            &&& w.pending.len() > 0 ==> {
                &&& w.outbox == v.outbox
                &&& w.front == v.front
                &&& w.held == chunk
            }
        }),
        v.absorbed(None) == v,
{
    lemma_absorbing(v, Some(chunk));
    let w = v.absorbed(Some(chunk));
    let delta = chunk.at("choices"@).nth(0).at("delta"@);
    let piece = trace_piece(delta);
    law_finished_steps_stay(v.tracker, piece);
}

/// Steps are judged one at a time, in order. While one that finished with the last is still
/// to be judged, a verdict that finds no repetition changes nothing but that; and a verdict
/// that does not measure against every earlier step is none.
pub proof fn law_verdicts_go_step_by_step(
    v: GuardView,
    similarities: Seq<u64>,
    rendered: Seq<Seq<char>>,
    elapsed: Seq<char>,
    best: Option<usize>,
    similarity: u64,
)
    requires
        v.phase == Phase::Judging,
        v.pending.len() > 0,
        is_best_match(similarities, best, similarity),
    ensures
        ({
            let w = v.after_measure(similarities, rendered, elapsed);
            let fits = similarities.len() == v.pending[0].step_idx && rendered.len()
                == v.pending[0].step_idx;
            &&& !fits ==> w == v
            &&& fits && v.pending.len() > 1 && (forall|i: int|
                0 <= i < similarities.len() ==> #[trigger] similarities[i] == 0 || similarities[i]
                    < v.tracker.threshold) ==> w == (GuardView {
                pending: v.pending.skip(1),
                ..v
            })
        }),
{
    let found = (best, similarity);
    assert(is_best_match(similarities, found.0, found.1));
    let chosen = best_of(similarities);
    law_best_match_is_unique(similarities, chosen.0, chosen.1, best, similarity);
    let w = v.after_measure(similarities, rendered, elapsed);
    let fits = similarities.len() == v.pending[0].step_idx && rendered.len()
        == v.pending[0].step_idx;
    if fits && v.pending.len() > 1 && (forall|i: int|
        0 <= i < similarities.len() ==> #[trigger] similarities[i] == 0 || similarities[i]
            < v.tracker.threshold) {
        if best is Some {
            assert(similarities[best->0 as int] == similarity);
        }
        assert(w =~= (GuardView { pending: v.pending.skip(1), ..v }));
    }
}

/// The report of a repetition names the request, the step, the earlier step that it is most
/// similar to, that similarity and the time, and shows how the earlier step begins.
pub proof fn law_reports_name_the_repeated_step(
    v: GuardView,
    similarities: Seq<u64>,
    rendered: Seq<Seq<char>>,
    elapsed: Seq<char>,
    best: usize,
    similarity: u64,
)
    requires
        v.phase == Phase::Judging,
        v.pending.len() > 0,
        similarities.len() == v.pending[0].step_idx,
        rendered.len() == v.pending[0].step_idx,
        is_best_match(similarities, Some(best), similarity),
        similarity >= v.tracker.threshold,
    ensures
        v.after_measure(similarities, rendered, elapsed).reason == Some(
            joined(
                seq![
                    "request="@ + v.tracker.request_id,
                    "step "@ + decimal(v.pending[0].step_idx),
                    "repeats step "@ + decimal(best as nat),
                    "(similarity "@ + rendered[best as int] + ","@,
                    "elapsed="@ + elapsed + "s):"@,
                    "\""@ + snippet(v.tracker.steps[best as int]) + "\""@,
                ],
                " "@,
            ),
        ),
{
    let found = (Some(best), similarity);
    assert(is_best_match(similarities, found.0, found.1));
    let chosen = best_of(similarities);
    law_best_match_is_unique(similarities, chosen.0, chosen.1, Some(best), similarity);
    lemma_reason_is_joined(
        v.tracker.request_id,
        v.pending[0].step_idx,
        best as nat,
        rendered[best as int],
        elapsed,
        v.tracker.steps[best as int],
    );
}

/// The sentence that reports a repetition, part by part.
proof fn lemma_reason_is_joined(
    request_id: Seq<char>,
    step_idx: nat,
    match_idx: nat,
    similarity: Seq<char>,
    elapsed: Seq<char>,
    earlier: Seq<char>,
)
    ensures
        reason_text(request_id, step_idx, match_idx, similarity, elapsed, earlier) == joined(
            seq![
                "request="@ + request_id,
                "step "@ + decimal(step_idx),
                "repeats step "@ + decimal(match_idx),
                "(similarity "@ + similarity + ","@,
                "elapsed="@ + elapsed + "s):"@,
                "\""@ + snippet(earlier) + "\""@,
            ],
            " "@,
        ),
{
    reveal_strlit(" ");
    reveal_strlit("step ");
    reveal_strlit(" step ");
    reveal_strlit("repeats step ");
    reveal_strlit(" repeats step ");
    reveal_strlit("(similarity ");
    reveal_strlit(" (similarity ");
    reveal_strlit(",");
    reveal_strlit("elapsed=");
    reveal_strlit(", elapsed=");
    reveal_strlit("s):");
    reveal_strlit("\"");
    reveal_strlit("s): \"");
    let a = "request="@ + request_id;
    let b = "step "@ + decimal(step_idx);
    let c = "repeats step "@ + decimal(match_idx);
    let d = "(similarity "@ + similarity + ","@;
    let e = "elapsed="@ + elapsed + "s):"@;
    let f = "\""@ + snippet(earlier) + "\""@;
    let all = seq![a, b, c, d, e, f];
    reveal_with_fuel(joined, 7);
    assert(all.drop_last() =~= seq![a, b, c, d, e]);
    assert(seq![a, b, c, d, e].drop_last() =~= seq![a, b, c, d]);
    assert(seq![a, b, c, d].drop_last() =~= seq![a, b, c]);
    assert(seq![a, b, c].drop_last() =~= seq![a, b]);
    assert(seq![a, b].drop_last() =~= seq![a]);
    let sep = " "@;
    assert(joined(all, sep) == a + sep + b + sep + c + sep + d + sep + e + sep + f);
    assert(" step "@ =~= sep + "step "@);
    assert(" repeats step "@ =~= sep + "repeats step "@);
    assert(" (similarity "@ =~= sep + "(similarity "@);
    assert(", elapsed="@ =~= ","@ + sep + "elapsed="@);
    assert("s): \""@ =~= "s):"@ + sep + "\""@);
    assert(reason_text(request_id, step_idx, match_idx, similarity, elapsed, earlier) =~= a + sep
        + b + sep + c + sep + d + sep + e + sep + f);
}

/// A completion is known by the first chunk of it that is JSON: by the id, the model and
/// the time that this gives, or else by those of the proxy. Later chunks change nothing
/// about that.
pub proof fn law_completions_are_known_by_their_first_chunk(v: GuardView, chunk: JsonView)
    ensures
        ({
            let w = v.absorbed(Some(chunk));
            &&& w.meta_seen
            &&& v.meta_seen ==> w.meta == v.meta
            &&& !v.meta_seen ==> {
                &&& chunk.field_text("id"@) matches Some(id) ==> w.meta.id == id
                &&& chunk.field_text("id"@) is None ==> w.meta.id == "chatcmpl-loop-guard"@
                &&& chunk.field_text("model"@) matches Some(model) ==> w.meta.model == model
                &&& chunk.field_text("model"@) is None ==> w.meta.model == "loop-guard"@
                &&& w.meta.created == match chunk.field("created"@) {
                    Some(JsonView::Integer(n)) => if i64::MIN <= n <= i64::MAX {
                        n
                    } else {
                        0
                    },
                    _ => 0,
                }
            }
        }),
{
}

/// Taking in payloads leaves what a completion is known by, once it is known.
proof fn lemma_digesting_keeps_identity(v: GuardView)
    requires
        v.meta_seen,
    ensures
        v.digested().meta_seen,
        v.digested().meta == v.meta,
    decreases v.queue.len(),
{
    if v.pending.len() == 0 && v.queue.len() > 0 {
        let rest = GuardView { queue: v.queue.drop_first(), ..v };
        lemma_absorbing(rest, parsed_text(v.queue[0]));
        lemma_digesting_keeps_identity(v.took_payload());
    }
}

/// Passing on a continuation leaves what a completion is known by.
proof fn lemma_continuing_keeps_identity(v: GuardView, replies: Seq<Seq<char>>)
    ensures
        v.continued_all(replies).meta_seen == v.meta_seen,
        v.continued_all(replies).meta == v.meta,
    decreases replies.len(),
{
    if replies.len() > 0 {
        lemma_continuing_keeps_identity(v, replies.drop_last());
    }
}

/// Whatever is reported, a completion stays known by what it was known by: the nudge and
/// the continuation go to the client under the id of the completion that was cut short.
pub proof fn law_completions_stay_known(v: GuardView, report: Report)
    requires
        v.meta_seen,
    ensures
        v.after(report).meta_seen,
        v.after(report).meta == v.meta,
{
    reveal(GuardView::after);
    match report {
        Report::Bytes(bytes) => {
            let all = v.tail + bytes;
            let next = GuardView { tail: cut_part(all), ..v };
            lemma_digesting_keeps_identity(
                next.hearing(decoded(whole_part(all))),
            );
        },
        Report::Chunk(chunk) => {
            lemma_digesting_keeps_identity(v.hearing(chunk));
        },
        Report::Measured(similarities, rendered, elapsed) => {
            let next = GuardView { phase: Phase::Reading, pending: v.pending.drop_first(), ..v };
            lemma_digesting_keeps_identity(next.settled());
        },
        Report::CompletionBytes(bytes) => {
            let all = v.tail + bytes;
            let text = decoded(whole_part(all));
            let heard = v.carry + text;
            lemma_continuing_keeps_identity(
                GuardView {
                    tail: cut_part(all),
                    carry: open_line(heard),
                    ..v
                },
                payloads(complete_lines(heard)),
            );
        },
        Report::CompletionChunk(chunk) => {
            let heard = v.carry + chunk;
            lemma_continuing_keeps_identity(
                GuardView { carry: open_line(heard), ..v },
                payloads(complete_lines(heard)),
            );
        },
        _ => {},
    }
}

/// A report that a stream has not asked for, because it stands elsewhere, changes nothing.
pub proof fn law_reports_out_of_turn_change_nothing(v: GuardView, report: Report)
    requires
        match report {
            Report::Connected(_) => v.phase != Phase::Connect,
            Report::Bytes(_) | Report::Chunk(_) | Report::Ended | Report::Silence => v.phase
                != Phase::Reading,
            Report::Measured(..) => v.phase != Phase::Judging,
            Report::Slots(_) => v.phase != Phase::FindSlot,
            Report::Prompt(_) => v.phase != Phase::RenderPrompt,
            Report::Completing(_) => v.phase != Phase::Complete,
            Report::CompletionBytes(_) | Report::CompletionChunk(_) | Report::CompletionEnded =>
                v.phase != Phase::Continuing,
        },
    ensures
        v.after(report) == v,
{
    reveal(GuardView::after);
}

/// Once a repetition is found, the slot is looked for, and whether or not the reply names
/// one, the conversation is rendered next, and then the continuation is asked for. It is
/// read from its own beginning. None of this changes the trace.
pub proof fn law_interventions_take_their_course(v: GuardView, slots: JsonView)
    ensures
        v.phase == Phase::FindSlot ==> {
            &&& v.after_slots(Some(slots)) == (GuardView {
                phase: Phase::RenderPrompt,
                slot: processing_slot(slots),
                ..v
            })
            &&& v.after_slots(None) == (GuardView { phase: Phase::RenderPrompt, slot: None, ..v })
        },
        v.phase == Phase::Complete ==> v.after_complete(true) == (GuardView {
            phase: Phase::Continuing,
            tail: Seq::empty(),
            carry: Seq::empty(),
            ..v
        }),
{
}

/// Does a stream close, with the given last word for a client of chat completions, and for
/// one of the Messages API with a message that stopped of itself?
pub open spec fn closes_with(v: GuardView, w: GuardView, last_word: Seq<char>) -> bool {
    &&& w.phase == Phase::Closed
    &&& v.front is Chat ==> w.outbox == v.outbox.push((last_word, false))
    &&& v.front is Messages ==> exists|events: Seq<StreamEvent>|
        {
            &&& w.outbox == v.outbox + all_outgoing(#[trigger] framed_all(events), false)
            &&& events.len() >= 2
            &&& events.last() == StreamEvent::MessageStop
            &&& events[events.len() - 2] matches StreamEvent::MessageDelta { stop_reason, .. }
                && stop_reason == "end_turn"@
            &&& forall|kind: BlockKind| #[trigger] sent(events, kind) == Seq::<char>::empty()
        }
}

/// Finishing a message says nothing more.
proof fn lemma_finishing_says_nothing(s: StreamView, finish_reason: Option<Seq<char>>)
    ensures
        forall|kind: BlockKind| #[trigger]
            sent(s.finished(finish_reason).1, kind) == Seq::<char>::empty(),
{
    let events = s.finished(finish_reason).1;
    let stop = s.closed().1;
    assert(events.drop_last().drop_last() =~= stop);
    reveal_with_fuel(sent, 4);
    assert forall|kind: BlockKind| #[trigger] sent(events, kind) == Seq::<char>::empty() by {
        assert(stop.len() > 0 ==> stop.drop_last() =~= Seq::empty());
        assert(sent(stop, kind) == Seq::<char>::empty());
    }
}

/// Closing a stream that stopped of itself.
proof fn lemma_closing(v: GuardView, last_word: Seq<char>)
    ensures
        closes_with(v, v.over(Some(last_word), Some("stop"@)), last_word),
{
    let w = v.over(Some(last_word), Some("stop"@));
    match v.front {
        FrontView::Messages(s) => {
            let events = s.finished(Some("stop"@)).1;
            reveal_strlit("stop");
            reveal_strlit("tool_calls");
            reveal_strlit("length");
            assert("stop"@.len() == 4 && "tool_calls"@.len() == 10 && "length"@.len() == 6);
            law_stop_reasons_have_counterparts(Some("stop"@));
            lemma_finishing_says_nothing(s, Some("stop"@));
            assert(w.outbox == v.outbox + all_outgoing(framed_all(events), false));
        },
        FrontView::Chat => {},
    }
}

/// A stream that cannot go on is closed, and the client is told: that the server cannot be
/// reached, or that the conversation cannot be rendered, be it for want of a reply or of a
/// prompt in it. Where only the continuation cannot be had, and where it ends, the stream
/// ends as one does.
pub proof fn law_streams_that_cannot_go_on_are_closed(v: GuardView, reply: Option<JsonView>)
    ensures
        v.phase == Phase::Connect ==> closes_with(
            v,
            v.after_connect(false),
            "data: "@ + "{\"error\":\"loop-guard: upstream unreachable\"}"@ + "\n\n"@,
        ),
        v.phase == Phase::RenderPrompt && (reply matches Some(found) ==> !(found.at(
            "prompt"@,
        ) is Text)) ==> closes_with(
            v,
            v.after_prompt(reply),
            "data: "@ + "{\"error\":\"loop-guard: apply-template failed\"}"@ + "\n\n"@,
        ),
        v.phase == Phase::Complete ==> closes_with(
            v,
            v.after_complete(false),
            "data: "@ + "[DONE]"@ + "\n\n"@,
        ),
        v.phase == Phase::Continuing ==> closes_with(
            v,
            v.after_completion_end(),
            "data: "@ + "[DONE]"@ + "\n\n"@,
        ),
{
    lemma_closing(
        v,
        "data: "@ + "{\"error\":\"loop-guard: upstream unreachable\"}"@ + "\n\n"@,
    );
    lemma_closing(
        v,
        "data: "@ + "{\"error\":\"loop-guard: apply-template failed\"}"@ + "\n\n"@,
    );
    lemma_closing(v, "data: "@ + "[DONE]"@ + "\n\n"@);
}

/// Where a completion ends by itself, a client of chat completions gets what is left of a
/// character that was never completed, and then the end marker, unless the server sent it.
pub proof fn law_nothing_is_held_back_at_the_end(v: GuardView)
    requires
        v.phase == Phase::Reading,
        v.front is Chat,
        v.tail.len() > 0,
    ensures
        ({
            let rest = v.outbox.push((decoded(v.tail), true));
            &&& v.after_end().phase == Phase::Closed
            &&& v.after_end().outbox == if v.saw_done {
                rest
            } else {
                rest.push(("data: "@ + "[DONE]"@ + "\n\n"@, false))
            }
        }),
{
}

/// A delta that only thinks is sent as a thought, and nothing else is.
proof fn lemma_thought_is_sent(s: StreamView, thought: Seq<char>)
    ensures
        ({
            let events = s.fed(one_text("reasoning_content"@, thought)).1;
            &&& sent(events, BlockKind::Thinking) == thought
            &&& forall|kind: BlockKind|
                kind != BlockKind::Thinking ==> #[trigger] sent(events, kind) == Seq::<
                    char,
                >::empty()
        }),
{
    let delta = one_text("reasoning_content"@, thought);
    let (t, events) = s.fed(delta);
    reveal_strlit("content");
    reveal_strlit("reasoning_content");
    reveal_strlit("tool_calls");
    reveal_strlit("");
    assert("content"@.len() == 7 && "reasoning_content"@.len() == 17 && "tool_calls"@.len() == 10);
    assert(delta.field_text("reasoning_content"@) == Some(thought));
    assert(delta.field("content"@) is None);
    assert(delta.field("tool_calls"@) is None);
    assert(StreamView::calls_of(delta) =~= Seq::empty());
    law_deltas_lose_nothing(s, delta, BlockKind::Thinking);
    assert(sent(events, BlockKind::Thinking) + t.waiting(BlockKind::Thinking) =~= sent(
        events,
        BlockKind::Thinking,
    ));
    assert(s.waiting(BlockKind::Thinking) + thought =~= thought);
    assert(t.tools == s.tools);
    assert forall|kind: BlockKind| kind != BlockKind::Thinking implies #[trigger] sent(events, kind)
        == Seq::<char>::empty() by {
        law_deltas_lose_nothing(s, delta, kind);
        assert(brought(delta, kind).len() == 0);
        assert(t.waiting(kind) == s.waiting(kind));
        assert(sent(events, kind).len() == 0);
    }
}

/// The nudge is shown to the client as the last of the thought, whole and once: to one of
/// chat completions in a chunk of the completion that is cut short, to one of the Messages
/// API as a thought of the message.
pub proof fn law_nudge_is_shown(v: GuardView, reply: JsonView, base: Seq<char>)
    requires
        v.phase == Phase::RenderPrompt,
        reply.field("prompt"@) == Some(JsonView::Text(base)),
    ensures
        ({
            let w = v.after_prompt(Some(reply));
            let nudge = closing_text(v.repeated);
            &&& w.phase == Phase::Complete
            &&& w.prompt == base + v.trace + nudge
            &&& v.front is Chat ==> exists|piece: ChatPiece|
                {
                    &&& w.outbox == v.outbox + framed_pieces(v.meta, #[trigger] seq![piece])
                    &&& piece.delta == JsonView::Object(
                        map!["reasoning_content"@ => JsonView::Text(nudge)],
                    )
                    &&& piece.finish_reason is None
                }
            &&& v.front is Messages ==> exists|events: Seq<StreamEvent>|
                {
                    &&& w.outbox == v.outbox + all_outgoing(#[trigger] framed_all(events), false)
                    &&& sent(events, BlockKind::Thinking) == nudge
                    &&& forall|kind: BlockKind|
                        kind != BlockKind::Thinking ==> #[trigger] sent(events, kind) == Seq::<
                            char,
                        >::empty()
                }
        }),
{
    let w = v.after_prompt(Some(reply));
    let nudge = closing_text(v.repeated);
    assert(rendered_prompt(reply) == Some(base));
    match v.front {
        FrontView::Chat => {
            let piece = ChatPiece {
                delta: one_text("reasoning_content"@, nudge),
                finish_reason: None,
                vital: false,
            };
            assert(w.outbox =~= v.outbox + framed_pieces(v.meta, seq![piece]));
        },
        FrontView::Messages(s) => {
            lemma_thought_is_sent(s, nudge);
            let events = s.fed(one_text("reasoning_content"@, nudge)).1;
            assert(w.outbox == v.outbox + all_outgoing(framed_all(events), false));
        },
    }
}

/// Passing on two runs of a continuation is passing on one and then the other, whatever is
/// carried over.
proof fn lemma_continued_concat(
    v: GuardView,
    a: Seq<Seq<char>>,
    b: Seq<Seq<char>>,
    carry: Seq<char>,
)
    ensures
        v.continued_all(a + b) == v.continued_all(a).continued_all(b),
        (GuardView { carry, ..v }).continued_all(b) == (GuardView { carry, ..v.continued_all(b) }),
    decreases b.len(),
{
    if b.len() == 0 {
        assert(a + b =~= a);
    } else {
        lemma_continued_concat(v, a, b.drop_last(), carry);
        assert((a + b).drop_last() =~= a + b.drop_last());
        lemma_continued_carry(v.continued_all(b.drop_last()), parsed_text(b.last()), carry);
    }
}

/// What is carried over makes no difference to what is passed on.
proof fn lemma_continued_carry(v: GuardView, parsed: Option<JsonView>, carry: Seq<char>)
    ensures
        (GuardView { carry, ..v }).continued(parsed) == (GuardView { carry, ..v.continued(parsed) }),
{
    let w = GuardView { carry, ..v };
    match parsed {
        Some(reply) => {
            let content = reply.field_text("content"@);
            assert(w.saying(content) =~= (GuardView { carry, ..v.saying(content) }));
        },
        None => {},
    }
    assert(w.continued(parsed) =~= (GuardView { carry, ..v.continued(parsed) }));
}

/// Where a continuation is cut into chunks makes no difference: two chunks one after the
/// other do what they do in one piece.
pub proof fn law_continuation_chunks_may_be_cut_anywhere(
    v: GuardView,
    first: Seq<char>,
    second: Seq<char>,
)
    requires
        v.phase == Phase::Continuing,
    ensures
        v.after_completion_chunk(first).after_completion_chunk(second) == v.after_completion_chunk(
            first + second,
        ),
{
    let heard = v.carry + first;
    let a = payloads(complete_lines(heard));
    let b = payloads(complete_lines(open_line(heard) + second));
    let end = open_line(open_line(heard) + second);
    law_chunk_boundaries_do_not_matter(v.carry, first, second);
    let x = GuardView { carry: open_line(heard), ..v };
    let y = GuardView { carry: end, ..v };
    lemma_continued_concat(y, a, b, end);
    lemma_continued_concat(v, Seq::empty(), a, open_line(heard));
    lemma_continued_concat(v, Seq::empty(), a, end);
    lemma_continuing(x, a);
    let w = v.after_completion_chunk(first);
    assert(w == x.continued_all(a));
    assert(w.phase == Phase::Continuing);
    assert(w.carry == open_line(heard));
    assert((GuardView { carry: end, ..w }) =~= y.continued_all(a));
}

/// The payloads of a continuation are passed on one by one, in order.
pub proof fn law_continuation_keeps_its_order(v: GuardView, a: Seq<Seq<char>>, b: Seq<Seq<char>>)
    ensures
        v.continued_all(a + b) == v.continued_all(a).continued_all(b),
{
    lemma_continued_concat(v, a, b, v.carry);
}

/// A payload of a continuation becomes, for a client of chat completions, a chunk with what
/// it says, if it says anything, and behind that a chunk that stops, if it says so; one that
/// is no JSON becomes nothing.
pub proof fn law_replies_say_and_then_stop(v: GuardView, payload: Seq<char>)
    requires
        v.front is Chat,
    ensures
        ({
            let w = v.continued_all(seq![payload]);
            match parsed_text(payload) {
                Some(reply) => {
                    let content = reply.text_or("content"@, ""@);
                    let saying = if content.len() > 0 {
                        seq![
                            ChatPiece {
                                delta: JsonView::Object(
                                    map!["content"@ => JsonView::Text(content)],
                                ),
                                finish_reason: None,
                                vital: true,
                            },
                        ]
                    } else {
                        Seq::empty()
                    };
                    let stopping = if reply.flag("stop"@) {
                        seq![
                            ChatPiece {
                                delta: JsonView::Object(Map::empty()),
                                finish_reason: Some("stop"@),
                                vital: false,
                            },
                        ]
                    } else {
                        Seq::empty()
                    };
                    w.outbox == v.outbox + framed_pieces(v.meta, saying) + framed_pieces(
                        v.meta,
                        stopping,
                    )
                },
                None => w == v,
            }
        }),
{
    reveal_with_fuel(GuardView::continued_all, 2);
    reveal_strlit("");
    assert(seq![payload].drop_last() =~= Seq::empty());
    assert(seq![payload].last() == payload);
    let w = v.continued_all(seq![payload]);
    assert(w == v.continued(parsed_text(payload)));
    match parsed_text(payload) {
        Some(reply) => {
            let content = reply.text_or("content"@, ""@);
            let none = Seq::<ChatPiece>::empty();
            assert(framed_pieces(v.meta, none) =~= Seq::empty());
            let saying = ChatPiece {
                delta: JsonView::Object(map!["content"@ => JsonView::Text(content)]),
                finish_reason: None,
                vital: true,
            };
            let stopping = ChatPiece {
                delta: JsonView::Object(Map::empty()),
                finish_reason: Some("stop"@),
                vital: false,
            };
            let x = v.saying(reply.field_text("content"@));
            if content.len() > 0 {
                assert(x.outbox =~= v.outbox + framed_pieces(v.meta, seq![saying]));
            } else {
                assert(x.outbox =~= v.outbox + framed_pieces(v.meta, none));
            }
            if reply.flag("stop"@) {
                assert(w.outbox =~= x.outbox + framed_pieces(v.meta, seq![stopping]));
            } else {
                assert(w.outbox =~= x.outbox + framed_pieces(v.meta, none));
            }
        },
        None => {},
    }
}

/// A reply of the server is read as the JSON that its bytes hold, and as nothing where there
/// is no reply or no JSON in it.
pub proof fn law_replies_are_read_as_json(bytes: &[u8])
    ensures
        parsed_reply(Some(bytes)) == parsed_bytes(bytes@),
        parsed_reply(None) is None,
{
}

} // verus!
