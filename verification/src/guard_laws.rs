//! What holds of every course that a guarded stream can take.

use crate::anthropic_stream::{framed_all, StreamEvent, StreamView};
use crate::guard::{
    all_outgoing, best_of, keep_alive_text, ActionView, FrontView, GuardView, OutgoingView, Phase,
};
use crate::decoding::{
    cut_part, decoded, decoded_chunks, law_characters_survive_chunks, open_tail, whole_part,
};
use crate::json::JsonView;
use crate::sse::{
    complete_lines, data_frame_text, has_end_line, is_end_marker,
    law_chunk_boundaries_do_not_matter, law_end_marker_is_found_across_chunks,
    lemma_open_line_is_open, marks_end, open_line, payload_of, payloads, without_return,
};
use crate::stream_laws::law_finish_leaves_no_block_open;
use crate::tracker::{
    is_best_match, law_best_match_is_unique, law_finished_steps_stay,
    law_repetition_is_similarity_to_some_step, snippet,
};
use crate::upstream::{
    closing_text, completion_request, delta_of, rendered_prompt, trace_piece, LOOP_NUDGE_PREFIX,
};
use crate::wire::{json_text, parsed_text};
use vstd::prelude::*;
use vstd::utf8::{decode_utf8, valid_utf8};

verus! {

/// Anything that can be reported to a stream.
pub enum Report {
    Connected(bool),
    Bytes(Seq<u8>),
    Chunk(Seq<char>),
    Measured(Seq<u64>, Seq<Seq<char>>, Seq<char>),
    Ended,
    Silence,
    Slots(Option<JsonView>),
    Prompt(Option<JsonView>),
    Completing(bool),
    CompletionBytes(Seq<u8>),
    CompletionChunk(Seq<char>),
    CompletionEnded,
}

impl GuardView {
    /// After a report, whatever it is.
    #[verifier::opaque]
    pub open spec fn after(self, report: Report) -> GuardView {
        match report {
            Report::Connected(reached) => self.after_connect(reached),
            Report::Bytes(bytes) => self.after_bytes(bytes),
            Report::Chunk(chunk) => self.after_chunk(chunk),
            Report::Measured(similarities, rendered, elapsed) => self.after_measure(
                similarities,
                rendered,
                elapsed,
            ),
            Report::Ended => self.after_end(),
            Report::Silence => self.after_silence(),
            Report::Slots(reply) => self.after_slots(reply),
            Report::Prompt(reply) => self.after_prompt(reply),
            Report::Completing(reached) => self.after_complete(reached),
            Report::CompletionBytes(bytes) => self.after_completion_bytes(bytes),
            Report::CompletionChunk(chunk) => self.after_completion_chunk(chunk),
            Report::CompletionEnded => self.after_completion_end(),
        }
    }

    /// Is the trace what the tracker has been watching?
    pub open spec fn watched(self) -> bool {
        self.trace == self.tracker.buffer
    }
}

/// What a payload adds to the trace; nothing if it is no JSON.
pub open spec fn generated_by(payload: Seq<char>) -> Seq<char> {
    match parsed_text(payload) {
        Some(chunk) => trace_piece(delta_of(chunk)),
        None => Seq::empty(),
    }
}

/// What some payloads add to the trace.
pub open spec fn generated(payloads: Seq<Seq<char>>) -> Seq<char>
    decreases payloads.len(),
{
    if payloads.len() == 0 {
        Seq::empty()
    } else {
        generated_by(payloads[0]) + generated(payloads.drop_first())
    }
}

/// What taking in payloads leaves as it is.
pub open spec fn same_request(v: GuardView, w: GuardView) -> bool {
    &&& w.body == v.body
    &&& w.messages == v.messages
    &&& w.front is Chat == v.front is Chat
    &&& w.tracker.threshold == v.tracker.threshold
    &&& w.tracker.min_step_words == v.tracker.min_step_words
    &&& w.tracker.request_id == v.tracker.request_id
}

/// Taking in a payload keeps the trace what the tracker watches, and adds to it
/// what the payload says.
pub proof fn lemma_absorbing(v: GuardView, parsed: Option<JsonView>)
    ensures
        v.watched() ==> v.absorbed(parsed).watched(),
        same_request(v, v.absorbed(parsed)),
        v.absorbed(parsed).queue == v.queue,
        v.absorbed(parsed).chunk == v.chunk,
        v.absorbed(parsed).tail == v.tail,
        v.absorbed(parsed).carry == v.carry,
        v.absorbed(parsed).saw_done == v.saw_done,
        v.absorbed(parsed).phase == v.phase,
        v.absorbed(parsed).reason == v.reason,
        v.front is Chat ==> v.absorbed(parsed).outbox == v.outbox,
        v.outbox.is_prefix_of(v.absorbed(parsed).outbox),
        v.absorbed(parsed).trace == v.trace + (match parsed {
            Some(chunk) => trace_piece(delta_of(chunk)),
            None => Seq::empty(),
        }),
{
    assert(v.trace + Seq::empty() =~= v.trace);
    match parsed {
        Some(chunk) => {
            let piece = trace_piece(delta_of(chunk));
            law_finished_steps_stay(v.tracker, piece);
            if piece.len() == 0 {
                assert(v.trace + piece =~= v.trace);
            }
        },
        None => {},
    }
}

/// Taking in the payloads of a chunk keeps the trace what the tracker watches.
/// A client of chat completions gets the chunk as it came exactly when none of
/// it is left to be taken in or measured.
pub proof fn lemma_digesting(v: GuardView)
    ensures
        v.watched() ==> v.digested().watched(),
        same_request(v, v.digested()),
        v.digested().phase == Phase::Judging || v.digested().phase == Phase::Reading,
        v.digested().chunk == v.chunk,
        v.digested().tail == v.tail,
        v.digested().carry == v.carry,
        v.digested().saw_done == v.saw_done,
        v.digested().reason == v.reason,
        v.digested().trace + generated(v.digested().queue) == v.trace + generated(v.queue),
        v.digested().phase == Phase::Reading ==> v.digested().queue.len() == 0,
        v.digested().phase == Phase::Judging <==> v.digested().pending.len() > 0,
        v.outbox.is_prefix_of(v.digested().outbox),
        v.front is Chat ==> v.digested().outbox == if v.digested().phase == Phase::Judging {
            v.outbox
        } else {
            v.outbox.push((v.chunk, true))
        },
    decreases v.queue.len(),
{
    if v.pending.len() == 0 && v.queue.len() > 0 {
        let rest = GuardView { queue: v.queue.drop_first(), ..v };
        let parsed = parsed_text(v.queue[0]);
        lemma_absorbing(rest, parsed);
        lemma_digesting(v.took_payload());
        assert(v.took_payload().trace + generated(rest.queue) =~= v.trace + generated(v.queue));
    }
}

/// Taking in a verdict, where it goes on to the rest of the chunk.
pub proof fn lemma_measuring(
    v: GuardView,
    similarities: Seq<u64>,
    rendered: Seq<Seq<char>>,
    elapsed: Seq<char>,
)
    requires
        v.phase == Phase::Judging,
    ensures
        ({
            let w = v.after_measure(similarities, rendered, elapsed);
            &&& v.watched() ==> w.watched()
            &&& same_request(v, w)
            &&& w.phase == Phase::Judging || w.phase == Phase::Reading || w.phase == Phase::FindSlot
            &&& w.chunk == v.chunk
            &&& w.tail == v.tail
            &&& w.carry == v.carry
            &&& w.saw_done == v.saw_done
            &&& w.trace + generated(w.queue) == v.trace + generated(v.queue)
            &&& v.outbox.is_prefix_of(w.outbox)
            &&& v.front is Chat ==> w.outbox == if w.phase == Phase::Reading {
                v.outbox.push((v.chunk, true))
            } else {
                v.outbox
            }
        }),
{
    let next = GuardView { phase: Phase::Reading, pending: v.pending.drop_first(), ..v };
    lemma_digesting(next.settled());
}

/// Passing on the continuation leaves everything but the client's side as it is.
pub proof fn lemma_continuing(v: GuardView, replies: Seq<Seq<char>>)
    ensures
        ({
            let w = v.continued_all(replies);
            &&& same_request(v, w)
            &&& w.phase == v.phase
            &&& w.trace == v.trace
            &&& w.tracker == v.tracker
            &&& w.front is Chat == v.front is Chat
            &&& v.outbox.is_prefix_of(w.outbox)
        }),
    decreases replies.len(),
{
    if replies.len() > 0 {
        lemma_continuing(v, replies.drop_last());
    }
}

/// What holds of a stream and what became of it by one report: the trace is still
/// what was watched, the request is the same, what was queued is still queued, and
/// a stream that was over is as it was.
spec fn is_sound_step(v: GuardView, w: GuardView) -> bool {
    &&& v.watched() ==> w.watched()
    &&& same_request(v, w)
    &&& v.outbox.is_prefix_of(w.outbox)
    &&& v.phase == Phase::Closed ==> w == v
}

/// Is a message that comes to its end finished, with no block left open?
spec fn ends_well(v: GuardView, w: GuardView) -> bool {
    v.front is Messages && v.phase != Phase::Closed && w.phase == Phase::Closed ==> {
        &&& w.outbox.len() > v.outbox.len()
        &&& w.outbox.last() == (StreamEvent::MessageStop.framed(), false)
        &&& w.front matches FrontView::Messages(state) && state.current is None
    }
}

/// A chunk is a sound step, and ends nothing.
proof fn lemma_chunk_step(v: GuardView, chunk: Seq<char>)
    ensures
        is_sound_step(v, v.after_chunk(chunk)),
        v.phase != Phase::Closed ==> v.after_chunk(chunk).phase != Phase::Closed,
{
    lemma_digesting(v.hearing(chunk));
}

/// Bytes are a sound step, and end nothing.
proof fn lemma_bytes_step(v: GuardView, bytes: Seq<u8>)
    ensures
        is_sound_step(v, v.after_bytes(bytes)),
        v.phase != Phase::Closed ==> v.after_bytes(bytes).phase != Phase::Closed,
{
    let all = v.tail + bytes;
    let next = GuardView { tail: cut_part(all), ..v };
    lemma_chunk_step(next, decoded(whole_part(all)));
}

/// A verdict is a sound step, and ends nothing.
proof fn lemma_measure_step(
    v: GuardView,
    similarities: Seq<u64>,
    rendered: Seq<Seq<char>>,
    elapsed: Seq<char>,
)
    ensures
        is_sound_step(v, v.after_measure(similarities, rendered, elapsed)),
        v.phase != Phase::Closed ==> v.after_measure(similarities, rendered, elapsed).phase
            != Phase::Closed,
{
    if v.phase == Phase::Judging {
        lemma_measuring(v, similarities, rendered, elapsed);
    }
}

/// A chunk of the continuation is a sound step, and ends nothing.
proof fn lemma_completion_step(v: GuardView, chunk: Seq<char>)
    ensures
        is_sound_step(v, v.after_completion_chunk(chunk)),
        v.phase != Phase::Closed ==> v.after_completion_chunk(chunk).phase != Phase::Closed,
{
    let heard = v.carry + chunk;
    lemma_continuing(
        GuardView { carry: open_line(heard), ..v },
        payloads(complete_lines(heard)),
    );
}

/// Bytes of the continuation are a sound step, and end nothing.
proof fn lemma_completion_bytes_step(v: GuardView, bytes: Seq<u8>)
    ensures
        is_sound_step(v, v.after_completion_bytes(bytes)),
        v.phase != Phase::Closed ==> v.after_completion_bytes(bytes).phase != Phase::Closed,
{
    let all = v.tail + bytes;
    lemma_completion_step(GuardView { tail: cut_part(all), ..v }, decoded(whole_part(all)));
}

/// Ending a stream is a sound step, and ends it well.
proof fn lemma_ending(v: GuardView, last_word: Option<Seq<char>>, finish_reason: Option<Seq<char>>)
    requires
        v.phase != Phase::Closed,
    ensures
        is_sound_step(v, v.over(last_word, finish_reason)),
        ends_well(v, v.over(last_word, finish_reason)),
{
    match v.front {
        FrontView::Messages(s) => {
            lemma_finishing(v, s, finish_reason);
        },
        FrontView::Chat => {},
    }
}

/// The end of the completion is a sound step, and ends the stream well.
proof fn lemma_end_step(v: GuardView)
    ensures
        is_sound_step(v, v.after_end()),
        ends_well(v, v.after_end()),
{
    if v.phase == Phase::Reading {
        let last_word = if v.marked_end() {
            None
        } else {
            Some(data_frame_text("[DONE]"@))
        };
        lemma_ending(v.emptied(), last_word, v.finish_reason);
    }
}

/// The reply with the prompt is a sound step, and if it ends the stream, it does so
/// well.
proof fn lemma_prompt_step(v: GuardView, reply: Option<JsonView>)
    ensures
        is_sound_step(v, v.after_prompt(reply)),
        ends_well(v, v.after_prompt(reply)),
{
    if v.phase == Phase::RenderPrompt {
        lemma_ending(
            v,
            Some(data_frame_text("{\"error\":\"loop-guard: apply-template failed\"}"@)),
            Some("stop"@),
        );
    }
}

/// Whether a request reached the server is a sound step, and if it ends the
/// stream, it does so well.
proof fn lemma_reaching_step(v: GuardView, reached: bool)
    ensures
        is_sound_step(v, v.after_connect(reached)),
        ends_well(v, v.after_connect(reached)),
        is_sound_step(v, v.after_complete(reached)),
        ends_well(v, v.after_complete(reached)),
        is_sound_step(v, v.after_completion_end()),
        ends_well(v, v.after_completion_end()),
{
    if v.phase != Phase::Closed {
        lemma_ending(
            v,
            Some(data_frame_text("{\"error\":\"loop-guard: upstream unreachable\"}"@)),
            Some("stop"@),
        );
        lemma_ending(v, Some(data_frame_text("[DONE]"@)), Some("stop"@));
    }
}

/// Every report is a sound step, and if it ends the stream, it does so well.
proof fn lemma_every_step(v: GuardView, report: Report)
    ensures
        is_sound_step(v, v.after(report)),
        ends_well(v, v.after(report)),
{
    reveal(GuardView::after);
    match report {
        Report::Connected(reached) => {
            lemma_reaching_step(v, reached);
        },
        Report::Bytes(bytes) => {
            lemma_bytes_step(v, bytes);
        },
        Report::Chunk(chunk) => {
            lemma_chunk_step(v, chunk);
        },
        Report::Measured(similarities, rendered, elapsed) => {
            lemma_measure_step(v, similarities, rendered, elapsed);
        },
        Report::Ended => {
            lemma_end_step(v);
        },
        Report::Silence => {},
        Report::Slots(_) => {},
        Report::Prompt(reply) => {
            lemma_prompt_step(v, reply);
        },
        Report::Completing(reached) => {
            lemma_reaching_step(v, reached);
        },
        Report::CompletionBytes(bytes) => {
            lemma_completion_bytes_step(v, bytes);
        },
        Report::CompletionChunk(chunk) => {
            lemma_completion_step(v, chunk);
        },
        Report::CompletionEnded => {
            lemma_reaching_step(v, true);
        },
    }
}

/// Whatever is reported, the trace stays what the tracker has been watching, and
/// the request that the stream answers stays what it is.
pub proof fn law_trace_is_what_was_watched(v: GuardView, report: Report)
    requires
        v.watched(),
    ensures
        v.after(report).watched(),
        same_request(v, v.after(report)),
{
    lemma_every_step(v, report);
}

/// A report only ever adds to what is queued for the client: nothing that is
/// queued is dropped, changed or overtaken.
pub proof fn law_queued_texts_stay(v: GuardView, report: Report)
    ensures
        v.outbox.is_prefix_of(v.after(report).outbox),
{
    lemma_every_step(v, report);
}

/// The first thing that a client of the Messages API gets is the announcement of
/// the message, before anything is asked of the server.
pub proof fn law_messages_are_announced_first(
    body: JsonView,
    model: Seq<char>,
    threshold: u64,
    min_step_words: nat,
    request_id: Seq<char>,
)
    ensures
        ({
            let v = GuardView::announced(body, model, threshold, min_step_words, request_id);
            &&& v.next().1 == ActionView::Send(
                (StreamEvent::MessageStart { id: "msg-"@ + request_id, model }).framed(),
                false,
            )
            &&& v.next().0.next().1 == ActionView::Connect(json_text(body))
            &&& v.watched()
        }),
{
}

/// A stream that is over stays over: no report changes it, and all that is left
/// to do is to send what is queued, in order.
pub proof fn law_closed_is_final(v: GuardView, report: Report)
    requires
        v.phase == Phase::Closed,
    ensures
        v.after(report) == v,
        v.next().0.phase == Phase::Closed,
        v.next().1 == if v.outbox.len() > 0 {
            ActionView::Send(v.outbox[0].0, v.outbox[0].1)
        } else {
            ActionView::Finished
        },
{
    lemma_every_step(v, report);
}

/// A client of chat completions gets the text of a chunk unchanged, and gets it as
/// soon as all of it has been found to repeat nothing.
pub proof fn law_chunks_pass_unchanged(v: GuardView, chunk: Seq<char>)
    requires
        v.phase == Phase::Reading,
        v.front is Chat,
    ensures
        v.after_chunk(chunk).outbox == if v.after_chunk(chunk).phase == Phase::Reading {
            v.outbox.push((chunk, true))
        } else {
            v.outbox
        },
        v.after_chunk(chunk).phase == Phase::Reading || v.after_chunk(chunk).phase
            == Phase::Judging,
        v.after_chunk(chunk).chunk == chunk,
{
    lemma_digesting(v.hearing(chunk));
}

/// After a verdict, a client of chat completions gets the chunk at hand as it
/// came if that settles the chunk, and otherwise nothing yet; of a chunk that
/// completes a repetition it never gets anything.
pub proof fn law_verdicts_release_the_chunk(
    v: GuardView,
    similarities: Seq<u64>,
    rendered: Seq<Seq<char>>,
    elapsed: Seq<char>,
)
    requires
        v.phase == Phase::Judging,
        v.front is Chat,
    ensures
        ({
            let w = v.after_measure(similarities, rendered, elapsed);
            &&& w.chunk == v.chunk
            &&& w.outbox == if w.phase == Phase::Reading {
                v.outbox.push((v.chunk, true))
            } else {
                v.outbox
            }
        }),
{
    lemma_measuring(v, similarities, rendered, elapsed);
}

/// No client, whatever it speaks, gets anything of a chunk from the moment that a
/// step of it is found to be a repetition.
pub proof fn law_repetition_is_withheld(
    v: GuardView,
    similarities: Seq<u64>,
    rendered: Seq<Seq<char>>,
    elapsed: Seq<char>,
)
    requires
        v.phase == Phase::Judging,
        v.after_measure(similarities, rendered, elapsed).phase == Phase::FindSlot,
    ensures
        v.after_measure(similarities, rendered, elapsed).outbox == v.outbox,
        v.after_measure(similarities, rendered, elapsed).front == v.front,
        forall|chunk: Seq<char>|
            #![trigger v.after_measure(similarities, rendered, elapsed).after_chunk(chunk)]
            v.after_measure(similarities, rendered, elapsed).after_chunk(chunk) == v.after_measure(
                similarities,
                rendered,
                elapsed,
            ),
{
    let next = GuardView { phase: Phase::Reading, pending: v.pending.drop_first(), ..v };
    lemma_digesting(next.settled());
}

/// The stream is cut short exactly when the measured step is similar enough to
/// some earlier step, however many steps there have been. A trace in which
/// nothing is similar enough to anything before it is never interfered with.
pub proof fn law_only_repetition_cuts_short(
    v: GuardView,
    similarities: Seq<u64>,
    rendered: Seq<Seq<char>>,
    elapsed: Seq<char>,
    best: Option<usize>,
    similarity: u64,
)
    requires
        v.phase == Phase::Judging,
        v.pending.len() > 0,
        similarities.len() == v.pending[0].step_idx,
        rendered.len() == v.pending[0].step_idx,
        is_best_match(similarities, best, similarity),
    ensures
        v.after_measure(similarities, rendered, elapsed).phase == Phase::FindSlot <==> (exists|
            i: int,
        |
            0 <= i < similarities.len() && #[trigger] similarities[i] > 0 && similarities[i]
                >= v.tracker.threshold),
{
    let found = (best, similarity);
    assert(is_best_match(similarities, found.0, found.1));
    let chosen = best_of(similarities);
    law_best_match_is_unique(similarities, chosen.0, chosen.1, best, similarity);
    law_repetition_is_similarity_to_some_step(
        similarities,
        best,
        similarity,
        v.tracker.threshold,
    );
    let next = GuardView { phase: Phase::Reading, pending: v.pending.drop_first(), ..v };
    lemma_digesting(next.settled());
}

/// Nothing that was generated is lost: what the trace holds, together with what
/// the payloads still to be taken in will add, is what it held before and what
/// the payloads of the chunk add.
pub proof fn law_trace_gathers_what_is_generated(v: GuardView, chunk: Seq<char>)
    requires
        v.phase == Phase::Reading,
    ensures
        v.after_chunk(chunk).trace + generated(v.after_chunk(chunk).queue) == v.trace + generated(
            payloads(complete_lines(v.carry + chunk)),
        ),
        v.after_chunk(chunk).phase == Phase::Reading ==> v.after_chunk(chunk).trace == v.trace
            + generated(payloads(complete_lines(v.carry + chunk))),
{
    lemma_digesting(v.hearing(chunk));
    let w = v.after_chunk(chunk);
    if w.queue.len() == 0 {
        assert(w.trace + generated(w.queue) =~= w.trace);
    }
}

/// Verdicts leave what the trace will hold as it is.
pub proof fn law_verdicts_lose_nothing(
    v: GuardView,
    similarities: Seq<u64>,
    rendered: Seq<Seq<char>>,
    elapsed: Seq<char>,
)
    requires
        v.phase == Phase::Judging,
    ensures
        ({
            let w = v.after_measure(similarities, rendered, elapsed);
            w.trace + generated(w.queue) == v.trace + generated(v.queue)
        }),
{
    lemma_measuring(v, similarities, rendered, elapsed);
}

/// The continuation goes on from the rendered conversation, everything that was
/// generated so far, the nudge, what was being repeated and the closing tag, with
/// what the request asked for and in the slot that was found busy, if one was. Once
/// the nudge has been shown, it is what is asked for next.
pub proof fn law_continuation_resumes_the_trace(v: GuardView, reply: JsonView, base: Seq<char>)
    requires
        v.phase == Phase::RenderPrompt,
        rendered_prompt(reply) == Some(base),
    ensures
        ({
            let w = v.after_prompt(Some(reply));
            let prompt = base + v.trace + closing_text(v.repeated);
            &&& w.phase == Phase::Complete
            &&& w.prompt == prompt
            &&& (GuardView { outbox: Seq::empty(), ..w }).next().1 == ActionView::Complete(
                json_text(completion_request(prompt, v.body, v.slot)),
            )
        }),
{
}

/// The nudge names what is being repeated: the step that the measured one was found
/// to repeat.
pub proof fn law_nudge_names_the_repeated_step(
    v: GuardView,
    similarities: Seq<u64>,
    rendered: Seq<Seq<char>>,
    elapsed: Seq<char>,
    best: usize,
    similarity: u64,
)
    requires
        v.phase == Phase::Judging,
        v.pending.len() > 0,
        similarities.len() == v.pending[0].step_idx,
        rendered.len() == v.pending[0].step_idx,
        is_best_match(similarities, Some(best), similarity),
        similarity >= v.tracker.threshold,
    ensures
        v.after_measure(similarities, rendered, elapsed).repeated == v.tracker.steps[best as int],
        v.after_measure(similarities, rendered, elapsed).trace == v.trace,
        closing_text(v.tracker.steps[best as int]) == LOOP_NUDGE_PREFIX@
            + "(the point you were restating: \""@ + snippet(v.tracker.steps[best as int])
            + "\")\n"@ + "</think>\n\n"@,
{
    let found = (Some(best), similarity);
    assert(is_best_match(similarities, found.0, found.1));
    let chosen = best_of(similarities);
    law_best_match_is_unique(similarities, chosen.0, chosen.1, Some(best), similarity);
}

/// Do two streams stand alike in everything but the protocol of the client, what is
/// queued for it, and why the completion ended?
pub open spec fn alike(v: GuardView, w: GuardView) -> bool {
    v == (GuardView {
        front: v.front,
        outbox: v.outbox,
        finish_reason: v.finish_reason,
        ..w
    })
}

/// Taking in a payload leaves streams alike.
proof fn lemma_absorbing_alike(v: GuardView, w: GuardView, parsed: Option<JsonView>)
    requires
        alike(v, w),
    ensures
        alike(v.absorbed(parsed), w.absorbed(parsed)),
{
}

/// Taking in the payloads of a chunk leaves streams alike.
proof fn lemma_digesting_alike(v: GuardView, w: GuardView)
    requires
        alike(v, w),
    ensures
        alike(v.digested(), w.digested()),
    decreases v.queue.len(),
{
    if v.pending.len() == 0 && v.queue.len() > 0 {
        let a = GuardView { queue: v.queue.drop_first(), ..v };
        let b = GuardView { queue: w.queue.drop_first(), ..w };
        let parsed = parsed_text(v.queue[0]);
        lemma_absorbing(a, parsed);
        lemma_absorbing_alike(a, b, parsed);
        lemma_digesting_alike(v.took_payload(), w.took_payload());
    }
}

/// Bytes leave streams alike, and so does text.
proof fn lemma_hearing_alike(v: GuardView, w: GuardView, bytes: Seq<u8>, chunk: Seq<char>)
    requires
        alike(v, w),
    ensures
        alike(v.after_chunk(chunk), w.after_chunk(chunk)),
        alike(v.after_bytes(bytes), w.after_bytes(bytes)),
{
    lemma_digesting_alike(v.hearing(chunk), w.hearing(chunk));
    let all = v.tail + bytes;
    let a = GuardView { tail: cut_part(all), ..v };
    let b = GuardView { tail: cut_part(all), ..w };
    let text = decoded(whole_part(all));
    lemma_digesting_alike(a.hearing(text), b.hearing(text));
}

/// A verdict leaves streams alike.
proof fn lemma_measuring_alike(
    v: GuardView,
    w: GuardView,
    similarities: Seq<u64>,
    rendered: Seq<Seq<char>>,
    elapsed: Seq<char>,
)
    requires
        alike(v, w),
    ensures
        alike(
            v.after_measure(similarities, rendered, elapsed),
            w.after_measure(similarities, rendered, elapsed),
        ),
{
    let a = GuardView { phase: Phase::Reading, pending: v.pending.drop_first(), ..v };
    let b = GuardView { phase: Phase::Reading, pending: w.pending.drop_first(), ..w };
    lemma_digesting_alike(a.settled(), b.settled());
}

/// Passing on the continuation leaves streams alike.
proof fn lemma_continuing_alike(v: GuardView, w: GuardView, replies: Seq<Seq<char>>)
    requires
        alike(v, w),
    ensures
        alike(v.continued_all(replies), w.continued_all(replies)),
    decreases replies.len(),
{
    if replies.len() > 0 {
        lemma_continuing_alike(v, w, replies.drop_last());
    }
}

/// A chunk of the continuation leaves streams alike.
proof fn lemma_completion_alike(v: GuardView, w: GuardView, bytes: Seq<u8>, chunk: Seq<char>)
    requires
        alike(v, w),
    ensures
        alike(v.after_completion_chunk(chunk), w.after_completion_chunk(chunk)),
        alike(v.after_completion_bytes(bytes), w.after_completion_bytes(bytes)),
{
    let heard = v.carry + chunk;
    lemma_continuing_alike(
        GuardView { carry: open_line(heard), ..v },
        GuardView { carry: open_line(heard), ..w },
        payloads(complete_lines(heard)),
    );
    let all = v.tail + bytes;
    let more = v.carry + decoded(whole_part(all));
    lemma_continuing_alike(
        GuardView { tail: cut_part(all), carry: open_line(more), ..v },
        GuardView { tail: cut_part(all), carry: open_line(more), ..w },
        payloads(complete_lines(more)),
    );
}

/// Whether requests reach the server, and the ends of streams, leave streams alike.
proof fn lemma_reaching_alike(v: GuardView, w: GuardView, reached: bool)
    requires
        alike(v, w),
    ensures
        alike(v.after_connect(reached), w.after_connect(reached)),
        alike(v.after_complete(reached), w.after_complete(reached)),
        alike(v.after_completion_end(), w.after_completion_end()),
{
}

/// The end of the completion, silence and the busy slots leave streams alike.
proof fn lemma_ending_alike(v: GuardView, w: GuardView, reply: Option<JsonView>)
    requires
        alike(v, w),
    ensures
        alike(v.after_end(), w.after_end()),
        alike(v.after_silence(), w.after_silence()),
        alike(v.after_slots(reply), w.after_slots(reply)),
{
}

/// The rendered prompt leaves streams alike.
proof fn lemma_prompt_alike(v: GuardView, w: GuardView, reply: Option<JsonView>)
    requires
        alike(v, w),
    ensures
        alike(v.after_prompt(reply), w.after_prompt(reply)),
{
}

/// A report leaves streams alike that were.
proof fn lemma_reports_keep_alike(v: GuardView, w: GuardView, report: Report)
    requires
        alike(v, w),
    ensures
        alike(v.after(report), w.after(report)),
{
    reveal(GuardView::after);
    match report {
        Report::Bytes(bytes) => {
            lemma_hearing_alike(v, w, bytes, Seq::empty());
        },
        Report::Chunk(chunk) => {
            lemma_hearing_alike(v, w, Seq::empty(), chunk);
        },
        Report::Measured(similarities, rendered, elapsed) => {
            lemma_measuring_alike(v, w, similarities, rendered, elapsed);
        },
        Report::CompletionBytes(bytes) => {
            lemma_completion_alike(v, w, bytes, Seq::empty());
        },
        Report::CompletionChunk(chunk) => {
            lemma_completion_alike(v, w, Seq::empty(), chunk);
        },
        Report::Connected(reached) => {
            lemma_reaching_alike(v, w, reached);
        },
        Report::Completing(reached) => {
            lemma_reaching_alike(v, w, reached);
        },
        Report::CompletionEnded => {
            lemma_reaching_alike(v, w, true);
        },
        Report::Ended => {
            lemma_ending_alike(v, w, None);
        },
        Report::Silence => {
            lemma_ending_alike(v, w, None);
        },
        Report::Slots(reply) => {
            lemma_ending_alike(v, w, reply);
        },
        Report::Prompt(reply) => {
            lemma_prompt_alike(v, w, reply);
        },
    }
}

/// Whatever is reported, two streams that were alike stay alike.
proof fn lemma_runs_keep_alike(v: GuardView, w: GuardView, reports: Seq<Report>)
    requires
        alike(v, w),
    ensures
        alike(v.after_all(reports), w.after_all(reports)),
    decreases reports.len(),
{
    if reports.len() > 0 {
        lemma_reports_keep_alike(v, w, reports[0]);
        lemma_runs_keep_alike(v.after(reports[0]), w.after(reports[0]), reports.drop_first());
    }
}

/// What is asked of the server does not depend on the protocol of the client: two
/// streams for the same request, one for each protocol, that are told the same ask
/// for the same at every point, the continuation included, once what is queued for
/// the client has been sent.
pub proof fn law_both_protocols_ask_alike(
    body: JsonView,
    model: Seq<char>,
    threshold: u64,
    min_step_words: nat,
    request_id: Seq<char>,
    reports: Seq<Report>,
)
    ensures
        ({
            let chat = GuardView::begun(
                FrontView::Chat,
                body,
                threshold,
                min_step_words,
                request_id,
            ).after_all(reports);
            let messages = GuardView::announced(
                body,
                model,
                threshold,
                min_step_words,
                request_id,
            ).after_all(reports);
            &&& alike(chat, messages)
            &&& (GuardView { outbox: Seq::empty(), ..chat }).next().1 == (GuardView {
                outbox: Seq::empty(),
                ..messages
            }).next().1
        }),
{
    let chat = GuardView::begun(FrontView::Chat, body, threshold, min_step_words, request_id);
    let messages = GuardView::announced(body, model, threshold, min_step_words, request_id);
    lemma_runs_keep_alike(chat, messages, reports);
}

/// At its natural end, a chat completion gets the end marker if and only if the
/// server sent none, neither on a complete line nor on the last one.
pub proof fn law_end_marker_is_not_doubled(v: GuardView)
    requires
        v.phase == Phase::Reading,
        v.front is Chat,
        v.tail.len() == 0,
    ensures
        v.after_end().outbox == if v.saw_done || is_end_marker(v.carry) {
            v.outbox
        } else {
            v.outbox.push((data_frame_text("[DONE]"@), false))
        },
        v.after_end().phase == Phase::Closed,
{
}

/// However the lines of the server are cut into chunks, its end marker is seen: it
/// is seen in two chunks exactly when it is in one with the text of both, and what
/// is carried over is the same.
pub proof fn law_end_marker_is_seen_across_chunks(v: GuardView, first: Seq<char>, second: Seq<char>)
    ensures
        v.hearing(first).hearing(second).saw_done == v.hearing(first + second).saw_done,
        v.hearing(first).hearing(second).carry == v.hearing(first + second).carry,
{
    law_end_marker_is_found_across_chunks(v.carry, first, second);
    law_chunk_boundaries_do_not_matter(v.carry, first, second);
}

/// Whatever brings a stream to its end, the last thing that a client of the
/// Messages API gets is the end of the message, with no block left open.
pub proof fn law_messages_are_always_finished(v: GuardView, report: Report)
    requires
        v.front is Messages,
        v.phase != Phase::Closed,
        v.after(report).phase == Phase::Closed,
    ensures
        v.after(report).outbox.len() > v.outbox.len(),
        v.after(report).outbox.last() == (StreamEvent::MessageStop.framed(), false),
        v.after(report).front matches FrontView::Messages(state) && state.current is None,
{
    lemma_every_step(v, report);
}

/// The texts that are queued for the client, joined.
pub open spec fn queued_text(outbox: Seq<OutgoingView>) -> Seq<char>
    decreases outbox.len(),
{
    if outbox.len() == 0 {
        Seq::empty()
    } else {
        queued_text(outbox.drop_last()) + outbox.last().0
    }
}

/// The byte chunks among some reports.
pub open spec fn chunks_in(reports: Seq<Report>) -> Seq<Seq<u8>>
    decreases reports.len(),
{
    if reports.len() == 0 {
        Seq::empty()
    } else {
        let rest = chunks_in(reports.drop_first());
        match reports[0] {
            Report::Bytes(bytes) => seq![bytes] + rest,
            _ => rest,
        }
    }
}

impl GuardView {
    /// What is queued for the client, and the chunk that waits for a verdict.
    pub open spec fn released(self) -> Seq<char> {
        queued_text(self.outbox) + if self.phase == Phase::Judging {
            self.chunk
        } else {
            Seq::empty()
        }
    }

    /// After some reports.
    pub open spec fn after_all(self, reports: Seq<Report>) -> GuardView
        decreases reports.len(),
    {
        if reports.len() == 0 {
            self
        } else {
            self.after(reports[0]).after_all(reports.drop_first())
        }
    }

    /// Does a report bring bytes when these are asked for, or a verdict when that
    /// is, which finds no repetition?
    pub open spec fn takes(self, report: Report) -> bool {
        match report {
            Report::Bytes(_) => self.phase == Phase::Reading,
            Report::Measured(..) => self.phase == Phase::Judging && self.after(report).phase
                != Phase::FindSlot,
            _ => false,
        }
    }

    /// Does each of some reports bring what is asked for, and no repetition?
    pub open spec fn passes(self, reports: Seq<Report>) -> bool
        decreases reports.len(),
    {
        reports.len() > 0 ==> self.takes(reports[0]) && self.after(reports[0]).passes(
            reports.drop_first(),
        )
    }
}

/// One more text is queued behind the others.
proof fn lemma_queued_push(outbox: Seq<OutgoingView>, text: Seq<char>, vital: bool)
    ensures
        queued_text(outbox.push((text, vital))) == queued_text(outbox) + text,
{
    assert(outbox.push((text, vital)).drop_last() =~= outbox);
}

/// Bytes release the text of the characters that are complete.
proof fn lemma_bytes_are_released(v: GuardView, bytes: Seq<u8>)
    requires
        v.front is Chat,
        v.phase == Phase::Reading,
    ensures
        v.after_bytes(bytes).released() == v.released() + decoded(whole_part(v.tail + bytes)),
        v.after_bytes(bytes).tail == cut_part(v.tail + bytes),
        v.after_bytes(bytes).front is Chat,
{
    let all = v.tail + bytes;
    let text = decoded(whole_part(all));
    let next = GuardView { tail: cut_part(all), ..v };
    let w = v.after_bytes(bytes);
    if text.len() == 0 {
        assert(v.released() + text =~= v.released());
    } else {
        lemma_digesting(next.hearing(text));
        law_chunks_pass_unchanged(next, text);
        lemma_queued_push(v.outbox, text, true);
        assert(w.released() =~= v.released() + text);
    }
}

/// A verdict that finds no repetition releases nothing more and nothing less.
proof fn lemma_verdict_releases(
    v: GuardView,
    similarities: Seq<u64>,
    rendered: Seq<Seq<char>>,
    elapsed: Seq<char>,
)
    requires
        v.front is Chat,
        v.phase == Phase::Judging,
        v.after_measure(similarities, rendered, elapsed).phase != Phase::FindSlot,
    ensures
        v.after_measure(similarities, rendered, elapsed).released() == v.released(),
        v.after_measure(similarities, rendered, elapsed).tail == v.tail,
        v.after_measure(similarities, rendered, elapsed).front is Chat,
{
    lemma_measuring(v, similarities, rendered, elapsed);
    lemma_queued_push(v.outbox, v.chunk, true);
    let w = v.after_measure(similarities, rendered, elapsed);
    assert(w.released() =~= v.released());
}

/// What a report brings to decode, behind what is left over.
pub open spec fn bytes_in(report: Report) -> Seq<u8> {
    match report {
        Report::Bytes(bytes) => bytes,
        _ => Seq::empty(),
    }
}

/// One report of a run without a repetition releases the text that it brings.
proof fn lemma_report_releases(v: GuardView, report: Report)
    requires
        v.front is Chat,
        v.takes(report),
    ensures
        v.after(report).front is Chat,
        report is Bytes ==> v.after(report).released() == v.released() + decoded(
            whole_part(v.tail + bytes_in(report)),
        ) && v.after(report).tail == cut_part(v.tail + bytes_in(report)),
        !(report is Bytes) ==> v.after(report).released() == v.released() && v.after(report).tail
            == v.tail,
{
    reveal(GuardView::after);
    match report {
        Report::Bytes(bytes) => {
            lemma_bytes_are_released(v, bytes);
        },
        Report::Measured(similarities, rendered, elapsed) => {
            lemma_verdict_releases(v, similarities, rendered, elapsed);
        },
        _ => {},
    }
}

/// What is released over a run without a repetition is the text of its chunks.
proof fn lemma_run_releases(v: GuardView, reports: Seq<Report>)
    requires
        v.front is Chat,
        v.passes(reports),
    ensures
        v.after_all(reports).released() == v.released() + decoded_chunks(
            v.tail,
            chunks_in(reports),
        ).0,
        v.after_all(reports).tail == decoded_chunks(v.tail, chunks_in(reports)).1,
        v.after_all(reports).front is Chat,
    decreases reports.len(),
{
    if reports.len() == 0 {
        assert(v.released() + Seq::<char>::empty() =~= v.released());
    } else {
        let w = v.after(reports[0]);
        let rest = reports.drop_first();
        lemma_report_releases(v, reports[0]);
        lemma_run_releases(w, rest);
        if reports[0] is Bytes {
            let chunks = chunks_in(reports);
            assert(chunks.drop_first() =~= chunks_in(rest));
            let text = decoded(whole_part(v.tail + bytes_in(reports[0])));
            let more = decoded_chunks(w.tail, chunks_in(rest)).0;
            assert((v.released() + text) + more =~= v.released() + (text + more));
        }
    }
}

/// Is the text that is carried over one line that is not complete?
pub open spec fn carries_an_open_line(v: GuardView) -> bool {
    open_line(v.carry) == v.carry && complete_lines(v.carry).len() == 0
}

/// Bytes carry over what is behind the last line feed, and an end marker among the
/// lines before it is seen.
proof fn lemma_bytes_are_lined(v: GuardView, bytes: Seq<u8>)
    requires
        v.phase == Phase::Reading,
        carries_an_open_line(v),
    ensures
        ({
            let w = v.after_bytes(bytes);
            let heard = v.carry + decoded(whole_part(v.tail + bytes));
            &&& w.carry == open_line(heard)
            &&& w.saw_done == (v.saw_done || marks_end(complete_lines(heard)))
            &&& carries_an_open_line(w)
        }),
{
    let all = v.tail + bytes;
    let text = decoded(whole_part(all));
    let next = GuardView { tail: cut_part(all), ..v };
    lemma_open_line_is_open(v.carry + text);
    if text.len() == 0 {
        assert(v.carry + text =~= v.carry);
    } else {
        lemma_digesting(next.hearing(text));
    }
}

/// One report of a run carries over what is behind the last line feed.
pub proof fn lemma_report_is_lined(v: GuardView, report: Report)
    requires
        v.takes(report),
        carries_an_open_line(v),
    ensures
        carries_an_open_line(v.after(report)),
        report is Bytes ==> ({
            let heard = v.carry + decoded(whole_part(v.tail + bytes_in(report)));
            &&& v.after(report).carry == open_line(heard)
            &&& v.after(report).saw_done == (v.saw_done || marks_end(complete_lines(heard)))
            &&& v.after(report).tail == cut_part(v.tail + bytes_in(report))
        }),
        !(report is Bytes) ==> v.after(report).carry == v.carry && v.after(report).saw_done
            == v.saw_done && v.after(report).tail == v.tail,
{
    reveal(GuardView::after);
    match report {
        Report::Bytes(bytes) => {
            lemma_bytes_are_lined(v, bytes);
            lemma_bytes_keep_their_tail(v, bytes);
        },
        Report::Measured(similarities, rendered, elapsed) => {
            lemma_measuring(v, similarities, rendered, elapsed);
        },
        _ => {},
    }
}

/// Over a run, the lines of all the text are heard.
proof fn lemma_run_is_lined(v: GuardView, reports: Seq<Report>)
    requires
        v.passes(reports),
        carries_an_open_line(v),
    ensures
        ({
            let w = v.after_all(reports);
            let heard = v.carry + decoded_chunks(v.tail, chunks_in(reports)).0;
            &&& w.carry == open_line(heard)
            &&& w.saw_done == (v.saw_done || marks_end(complete_lines(heard)))
        }),
    decreases reports.len(),
{
    if reports.len() == 0 {
        assert(v.carry + Seq::<char>::empty() =~= v.carry);
    } else {
        let w = v.after(reports[0]);
        let rest = reports.drop_first();
        lemma_report_is_lined(v, reports[0]);
        lemma_run_is_lined(w, rest);
        if reports[0] is Bytes {
            let text = decoded(whole_part(v.tail + bytes_in(reports[0])));
            let chunks = chunks_in(reports);
            assert(chunks.drop_first() =~= chunks_in(rest));
            let more = decoded_chunks(w.tail, chunks_in(rest)).0;
            law_chunk_boundaries_do_not_matter(v.carry, text, more);
            law_end_marker_is_found_across_chunks(v.carry, text, more);
        }
    }
}

/// Bytes leave over the beginning of a character.
proof fn lemma_bytes_keep_their_tail(v: GuardView, bytes: Seq<u8>)
    requires
        v.phase == Phase::Reading,
    ensures
        v.after_bytes(bytes).tail == cut_part(v.tail + bytes),
{
    let all = v.tail + bytes;
    let next = GuardView { tail: cut_part(all), ..v };
    lemma_digesting(next.hearing(decoded(whole_part(all))));
}

/// As long as nothing is found to repeat, a client of chat completions gets
/// everything that the server sends, in whatever chunks it comes: if the bytes of
/// all the chunks together are UTF-8, the texts that are sent, joined, are what the
/// bytes stand for; and at the end only the end marker is added, if no line that the
/// server sent was one.
pub proof fn law_passthrough_forwards_everything(v: GuardView, reports: Seq<Report>)
    requires
        v.front is Chat,
        v.passes(reports),
        open_tail(v.tail) == v.tail.len(),
        carries_an_open_line(v),
        valid_utf8(v.tail + chunks_in(reports).flatten()),
    ensures
        ({
            let w = v.after_all(reports);
            let text = decode_utf8(v.tail + chunks_in(reports).flatten());
            &&& w.released() == v.released() + text
            &&& w.tail.len() == 0
            &&& w.phase == Phase::Reading ==> queued_text(w.after_end().outbox) == v.released() + text
                + if v.saw_done || has_end_line(v.carry + text) {
                Seq::empty()
            } else {
                data_frame_text("[DONE]"@)
            }
        }),
{
    lemma_run_releases(v, reports);
    lemma_run_is_lined(v, reports);
    law_characters_survive_chunks(v.tail, chunks_in(reports));
    let w = v.after_all(reports);
    if w.phase == Phase::Reading {
        law_end_marker_is_not_doubled(w);
        lemma_queued_push(w.outbox, data_frame_text("[DONE]"@), false);
        assert(w.released() =~= queued_text(w.outbox));
        assert(w.released() + Seq::<char>::empty() =~= w.released());
    }
}

/// Finishing a message queues its end last.
proof fn lemma_finishing(v: GuardView, s: StreamView, finish_reason: Option<Seq<char>>)
    requires
        v.front == FrontView::Messages(s),
    ensures
        ({
            let sent = all_outgoing(framed_all(s.finished(finish_reason).1), false);
            &&& sent.len() > 0
            &&& (v.outbox + sent).last() == (StreamEvent::MessageStop.framed(), false)
            &&& s.finished(finish_reason).0.current is None
        }),
{
    law_finish_leaves_no_block_open(s, finish_reason);
    let events = s.finished(finish_reason).1;
    let sent = all_outgoing(framed_all(events), false);
    assert(sent.last() == (events.last().framed(), false));
}

/// A client that hears nothing for a while is kept from giving up, if it speaks
/// the Messages API; what it gets then is a comment, which says nothing.
pub proof fn law_silence_is_covered(v: GuardView)
    requires
        v.phase == Phase::Reading,
        v.front is Messages,
    ensures
        v.after_silence() == v.sending(keep_alive_text(), true),
        payloads(complete_lines(keep_alive_text())).len() == 0,
        open_line(keep_alive_text()).len() == 0,
{
    let comment = keep_alive_text();
    reveal_strlit(": keep-alive\n\n");
    reveal_strlit("data: ");
    reveal_with_fuel(complete_lines, 16);
    reveal_with_fuel(open_line, 16);
    let lines = complete_lines(comment);
    assert(lines.len() == 2);
    assert(lines[0] =~= comment.take(12));
    let body = without_return(lines[0]);
    assert(body[0] == ':');
    assert(!"data: "@.is_prefix_of(body)) by {
        assert("data: "@[0] == 'd');
        assert(body.subrange(0, 6)[0] == body[0]);
    }
    assert(payload_of(lines[0]) is None);
    assert(payload_of(lines[1]) is None);
    reveal_with_fuel(payloads, 3);
    assert(lines.drop_last().last() == lines[0]);
}

} // verus!
