//! The course of one guarded stream: read what the model server streams, watch
//! the trace, and where it repeats itself, close the thought by force and
//! continue from there.
//!
//! A `GuardStream` decides; whoever runs it performs the action that `poll`
//! names, and reports what came of it.

use crate::anthropic::{json_option, string_view};
use crate::anthropic_stream::{framed_all, AnthropicStreamState, StreamEvent, StreamView};
use crate::decoding::{cut_part, decode, decode_chunk, decoded, whole_part};
use crate::json::{array_of, json_views, no_entries, put, text, text_view, Json, JsonView};
use crate::sse::{
    chat_chunk, complete_lines, data_frame_text, done_frame, extract_sse_payloads,
    holds_end_marker, is_end_line, is_end_marker, make_chat_chunk, marks_end, open_line, payloads,
    str_view,
};
use crate::terms::{QueryView, StepQuery};
use crate::text::views;
use crate::tracker::{
    is_best_match, law_best_match_is_unique, law_finished_steps_stay, lemma_queries_are_numbered,
    queries_from, query_views, reason_text, Measurement, StepEvent, StepTracker, TrackerView,
};
use crate::upstream::{
    closing_text, completion_request, continuation_prompt, current_processing_slot, delta_in,
    delta_of, finish_reason_in, finish_reason_of, make_closing_text, make_completion_request,
    make_template_request, processing_slot, prompt_in, rendered_prompt, template_request,
    trace_piece, trace_piece_of,
};
use crate::wire::{json_text, parse_bytes, parse_text, parsed_bytes, parsed_text, to_text};
use vstd::prelude::*;
use vstd::string::StringExecFns;

verus! {

/// Where a stream stands.
#[derive(Clone, Copy, Debug, PartialEq, Eq, Structural)]
pub enum Phase {
    /// The completion has not been requested yet.
    Connect,
    /// The completion is being read.
    Reading,
    /// A step that a chunk finished is to be measured.
    Judging,
    /// The trace repeats itself, and its slot is to be found.
    FindSlot,
    /// The conversation is to be rendered as a prompt.
    RenderPrompt,
    /// The continuation has not been requested yet.
    Complete,
    /// The continuation is being read.
    Continuing,
    /// There is nothing left to do.
    Closed,
}

/// A text for the client. If a vital one cannot be delivered, the client is gone
/// and the stream is over.
pub struct Outgoing {
    pub text: String,
    pub vital: bool,
}

/// The model of a text for the client.
pub type OutgoingView = (Seq<char>, bool);

/// The models of a list of texts for the client.
pub open spec fn outgoing_views(out: Seq<Outgoing>) -> Seq<OutgoingView> {
    out.map_values(|o: Outgoing| (o.text@, o.vital))
}

/// What is to be done next.
pub enum Action {
    /// Send a text to the client.
    Send(Outgoing),
    /// Request the completion with this body.
    Connect(String),
    /// Read the next chunk of the completion.
    NextChunk,
    /// Measure the step that `query` describes.
    Measure,
    /// Ask which slots are busy.
    FindSlot,
    /// Have the conversation rendered, with this body.
    RenderPrompt(String),
    /// Request the continuation with this body.
    Complete(String),
    /// Read the next chunk of the continuation.
    NextCompletionChunk,
    /// Stop.
    Finished,
}

/// The model of an action.
pub enum ActionView {
    Send(Seq<char>, bool),
    Connect(Seq<char>),
    NextChunk,
    Measure,
    FindSlot,
    RenderPrompt(Seq<char>),
    Complete(Seq<char>),
    NextCompletionChunk,
    Finished,
}

impl View for Action {
    type V = ActionView;

    open spec fn view(&self) -> ActionView {
        match self {
            Action::Send(out) => ActionView::Send(out.text@, out.vital),
            Action::Connect(body) => ActionView::Connect(body@),
            Action::NextChunk => ActionView::NextChunk,
            Action::Measure => ActionView::Measure,
            Action::FindSlot => ActionView::FindSlot,
            Action::RenderPrompt(body) => ActionView::RenderPrompt(body@),
            Action::Complete(body) => ActionView::Complete(body@),
            Action::NextCompletionChunk => ActionView::NextCompletionChunk,
            Action::Finished => ActionView::Finished,
        }
    }
}

/// The protocol that the client speaks.
pub enum Front {
    /// Chat completions: chunks are passed on as they come.
    Chat,
    /// The Messages API: chunks are translated.
    Messages(AnthropicStreamState),
}

/// The model of the protocol that the client speaks.
pub enum FrontView {
    Chat,
    Messages(StreamView),
}

impl View for Front {
    type V = FrontView;

    open spec fn view(&self) -> FrontView {
        match self {
            Front::Chat => FrontView::Chat,
            Front::Messages(state) => FrontView::Messages(state@),
        }
    }
}

/// What identifies a completion.
pub struct Meta {
    pub id: String,
    pub model: String,
    pub created: i64,
}

/// The model of what identifies a completion.
pub struct MetaView {
    pub id: Seq<char>,
    pub model: Seq<char>,
    pub created: int,
}

impl View for Meta {
    type V = MetaView;

    open spec fn view(&self) -> MetaView {
        MetaView { id: self.id@, model: self.model@, created: self.created as int }
    }
}

/// What identifies a completion before any chunk of it has been read.
pub open spec fn unknown_meta() -> MetaView {
    MetaView { id: Seq::empty(), model: Seq::empty(), created: 0 }
}

/// What identifies a completion, read from its first chunk.
pub open spec fn meta_of(chunk: JsonView) -> MetaView {
    MetaView {
        id: chunk.text_or("id"@, "chatcmpl-loop-guard"@),
        model: chunk.text_or("model"@, "loop-guard"@),
        created: match chunk.field("created"@) {
            Some(created) => match created.signed() {
                Some(n) => n as int,
                None => 0,
            },
            None => 0,
        },
    }
}

/// The whole state of a guarded stream.
#[verifier::ext_equal]
pub struct GuardView {
    pub front: FrontView,
    pub tracker: TrackerView,
    /// The request, and its messages.
    pub body: JsonView,
    pub messages: JsonView,
    pub phase: Phase,
    /// What is to be sent to the client before anything else is done.
    pub outbox: Seq<OutgoingView>,
    /// The bytes of a character that is not complete yet.
    pub tail: Seq<u8>,
    /// The line of the stream that is not complete yet.
    pub carry: Seq<char>,
    /// The chunk at hand, and its payloads that are still to be taken in.
    pub chunk: Seq<char>,
    pub queue: Seq<Seq<char>>,
    /// The payload at hand, and the steps it finished that are to be measured.
    pub held: JsonView,
    pub pending: Seq<QueryView>,
    /// Everything generated so far.
    pub trace: Seq<char>,
    pub meta: MetaView,
    pub meta_seen: bool,
    /// Has the server sent its own end marker?
    pub saw_done: bool,
    pub finish_reason: Option<Seq<char>>,
    /// Why the thought was closed by force, once it was.
    pub reason: Option<Seq<char>>,
    /// The text of the step that was being repeated.
    pub repeated: Seq<char>,
    pub slot: Option<i64>,
    pub prompt: Seq<char>,
}

/// The JSON object with one text field.
pub open spec fn one_text(key: Seq<char>, s: Seq<char>) -> JsonView {
    JsonView::Object(map![key => text_view(s)])
}

/// Texts for the client, all vital or all not.
pub open spec fn all_outgoing(frames: Seq<Seq<char>>, vital: bool) -> Seq<OutgoingView> {
    frames.map_values(|frame: Seq<char>| (frame, vital))
}

/// The best match of a list of similarities, and its similarity.
pub open spec fn best_of(similarities: Seq<u64>) -> (Option<usize>, u64) {
    choose|best: (Option<usize>, u64)| is_best_match(similarities, best.0, best.1)
}

/// What a client of the Messages API gets to see of silence.
pub open spec fn keep_alive_text() -> Seq<char> {
    ": keep-alive\n\n"@
}

/// What a reply parses to; nothing where there was none.
pub open spec fn parsed_reply(reply: Option<&[u8]>) -> Option<JsonView> {
    match reply {
        Some(bytes) => parsed_bytes(bytes@),
        None => None,
    }
}

/// The messages of a request; none where absent.
pub open spec fn messages_of(body: JsonView) -> JsonView {
    match body.field("messages"@) {
        Some(messages) => messages,
        None => JsonView::Array(Seq::empty()),
    }
}

/// A streamed message that has been announced.
pub open spec fn announced_message(message_id: Seq<char>, model: Seq<char>) -> StreamView {
    StreamView {
        message_id,
        model,
        next_index: 0,
        current: None,
        tools: Map::empty(),
        output_chars: 0,
        started: true,
    }
}

impl GuardView {
    /// A stream that has not begun.
    pub open spec fn begun(
        front: FrontView,
        body: JsonView,
        threshold: u64,
        min_step_words: nat,
        request_id: Seq<char>,
    ) -> GuardView {
        GuardView {
            front,
            tracker: TrackerView {
                threshold,
                min_step_words,
                request_id,
                buffer: Seq::empty(),
                consumed: 0,
                steps: Seq::empty(),
            },
            body,
            messages: messages_of(body),
            phase: Phase::Connect,
            outbox: Seq::empty(),
            tail: Seq::empty(),
            carry: Seq::empty(),
            chunk: Seq::empty(),
            queue: Seq::empty(),
            held: JsonView::Null,
            pending: Seq::empty(),
            trace: Seq::empty(),
            meta: unknown_meta(),
            meta_seen: false,
            saw_done: false,
            finish_reason: None,
            reason: None,
            repeated: Seq::empty(),
            slot: None,
            prompt: Seq::empty(),
        }
    }

    /// A stream for a client of the Messages API, with the message announced.
    pub open spec fn announced(
        body: JsonView,
        model: Seq<char>,
        threshold: u64,
        min_step_words: nat,
        request_id: Seq<char>,
    ) -> GuardView {
        let message_id = "msg-"@ + request_id;
        GuardView::begun(
            FrontView::Messages(announced_message(message_id, model)),
            body,
            threshold,
            min_step_words,
            request_id,
        ).sending((StreamEvent::MessageStart { id: message_id, model }).framed(), false)
    }

    /// With a text to be sent.
    pub open spec fn sending(self, frame: Seq<char>, vital: bool) -> GuardView {
        GuardView { outbox: self.outbox.push((frame, vital)), ..self }
    }

    /// With a delta translated for a client of the Messages API.
    pub open spec fn translating(self, delta: JsonView, vital: bool) -> GuardView {
        match self.front {
            FrontView::Chat => self,
            FrontView::Messages(s) => GuardView {
                front: FrontView::Messages(s.fed(delta).0),
                outbox: self.outbox + all_outgoing(framed_all(s.fed(delta).1), vital),
                ..self
            },
        }
    }

    /// At the end: a client of chat completions gets the given last word, if
    /// any; for one of the Messages API the message is finished.
    pub open spec fn over(
        self,
        last_word: Option<Seq<char>>,
        finish_reason: Option<Seq<char>>,
    ) -> GuardView {
        match self.front {
            FrontView::Chat => GuardView {
                phase: Phase::Closed,
                outbox: match last_word {
                    Some(frame) => self.outbox.push((frame, false)),
                    None => self.outbox,
                },
                ..self
            },
            FrontView::Messages(s) => GuardView {
                front: FrontView::Messages(s.finished(finish_reason).0),
                phase: Phase::Closed,
                outbox: self.outbox + all_outgoing(
                    framed_all(s.finished(finish_reason).1),
                    false,
                ),
                ..self
            },
        }
    }

    /// After the answer to the request for the completion.
    pub open spec fn after_connect(self, reached: bool) -> GuardView {
        if self.phase != Phase::Connect {
            self
        } else if reached {
            GuardView { phase: Phase::Reading, tail: Seq::empty(), carry: Seq::empty(), ..self }
        } else {
            self.over(
                Some(data_frame_text("{\"error\":\"loop-guard: upstream unreachable\"}"@)),
                Some("stop"@),
            )
        }
    }

    /// With the payload at hand dealt with: translated, where the client needs
    /// that.
    pub open spec fn settled(self) -> GuardView {
        match self.front {
            FrontView::Chat => self,
            FrontView::Messages(_) => GuardView {
                finish_reason: match finish_reason_of(self.held) {
                    Some(reason) => Some(reason),
                    None => self.finish_reason,
                },
                ..self
            }.translating(delta_of(self.held), true),
        }
    }

    /// With a payload taken in: the trace grows by it, and what it adds is dealt
    /// with at once if it finishes no step. A payload that is no JSON is passed
    /// over.
    pub open spec fn absorbed(self, parsed: Option<JsonView>) -> GuardView {
        match parsed {
            Some(chunk) => {
                let piece = trace_piece(delta_of(chunk));
                let tracker = if piece.len() == 0 {
                    self.tracker
                } else {
                    self.tracker.fed(piece)
                };
                let pending = queries_from(tracker.steps, self.tracker.steps.len());
                let next = GuardView {
                    tracker,
                    trace: self.trace + piece,
                    held: chunk,
                    pending,
                    meta: if self.meta_seen {
                        self.meta
                    } else {
                        meta_of(chunk)
                    },
                    meta_seen: true,
                    ..self
                };
                if pending.len() == 0 {
                    next.settled()
                } else {
                    next
                }
            },
            None => self,
        }
    }

    /// With the next payload of the chunk taken in.
    pub open spec fn took_payload(self) -> GuardView {
        GuardView { queue: self.queue.drop_first(), ..self }.absorbed(parsed_text(self.queue[0]))
    }

    /// With payloads taken in until a step is to be measured or none is left; a
    /// client of chat completions then gets the chunk as it came.
    pub open spec fn digested(self) -> GuardView
        decreases self.queue.len(),
    {
        if self.pending.len() > 0 {
            GuardView { phase: Phase::Judging, ..self }
        } else if self.queue.len() == 0 {
            let done = GuardView { phase: Phase::Reading, ..self };
            match self.front {
                FrontView::Chat => done.sending(self.chunk, true),
                FrontView::Messages(_) => done,
            }
        } else {
            self.took_payload().digested()
        }
    }

    /// With a chunk at hand, none of whose payloads has been taken in.
    pub open spec fn hearing(self, chunk: Seq<char>) -> GuardView {
        GuardView {
            saw_done: self.saw_done || marks_end(complete_lines(self.carry + chunk)),
            carry: open_line(self.carry + chunk),
            chunk,
            queue: payloads(complete_lines(self.carry + chunk)),
            pending: Seq::empty(),
            ..self
        }
    }

    /// After a chunk of the completion has arrived.
    pub open spec fn after_chunk(self, chunk: Seq<char>) -> GuardView {
        if self.phase != Phase::Reading {
            self
        } else {
            self.hearing(chunk).digested()
        }
    }

    /// After bytes of the completion have arrived: those of characters that are
    /// complete are taken in as text, and the rest waits for more.
    pub open spec fn after_bytes(self, bytes: Seq<u8>) -> GuardView {
        if self.phase != Phase::Reading {
            self
        } else {
            let all = self.tail + bytes;
            let next = GuardView { tail: cut_part(all), ..self };
            if decoded(whole_part(all)).len() == 0 {
                next
            } else {
                next.after_chunk(decoded(whole_part(all)))
            }
        }
    }

    /// After a step has been measured. A repetition ends the reading; nothing
    /// more of the chunk is taken in or passed on.
    pub open spec fn after_measure(
        self,
        similarities: Seq<u64>,
        rendered: Seq<Seq<char>>,
        elapsed: Seq<char>,
    ) -> GuardView {
        if self.phase != Phase::Judging || self.pending.len() == 0 || similarities.len()
            != self.pending[0].step_idx || rendered.len() != self.pending[0].step_idx {
            self
        } else {
            let (best, similarity) = best_of(similarities);
            if best is Some && similarity >= self.tracker.threshold {
                GuardView {
                    phase: Phase::FindSlot,
                    reason: Some(
                        reason_text(
                            self.tracker.request_id,
                            self.pending[0].step_idx,
                            best->0 as nat,
                            rendered[best->0 as int],
                            elapsed,
                            self.tracker.steps[best->0 as int],
                        ),
                    ),
                    repeated: self.tracker.steps[best->0 as int],
                    ..self
                }
            } else {
                let next = GuardView { pending: self.pending.drop_first(), ..self };
                if next.pending.len() == 0 {
                    GuardView { phase: Phase::Reading, ..next }.settled().digested()
                } else {
                    next
                }
            }
        }
    }

    /// Without what is left of a character that was never completed, which a client
    /// of chat completions gets to see.
    pub open spec fn emptied(self) -> GuardView {
        let next = GuardView { tail: Seq::empty(), ..self };
        match self.front {
            FrontView::Chat => if self.tail.len() == 0 {
                next
            } else {
                next.sending(decoded(self.tail), true)
            },
            FrontView::Messages(_) => next,
        }
    }

    /// Has the server sent its own end marker, be it on the last line, without a
    /// line feed?
    pub open spec fn marked_end(self) -> bool {
        self.saw_done || self.tail.len() == 0 && is_end_marker(self.carry)
    }

    /// After the completion has ended by itself. The end marker is added if the
    /// server sent none.
    pub open spec fn after_end(self) -> GuardView {
        if self.phase != Phase::Reading {
            self
        } else {
            self.emptied().over(
                if self.marked_end() {
                    None
                } else {
                    Some(data_frame_text("[DONE]"@))
                },
                self.finish_reason,
            )
        }
    }

    /// After a while without a chunk. A client of the Messages API gets a sign
    /// of life.
    pub open spec fn after_silence(self) -> GuardView {
        if self.phase != Phase::Reading {
            self
        } else {
            match self.front {
                FrontView::Chat => self,
                FrontView::Messages(_) => self.sending(keep_alive_text(), true),
            }
        }
    }

    /// After the reply to the question for the busy slots.
    pub open spec fn after_slots(self, reply: Option<JsonView>) -> GuardView {
        if self.phase != Phase::FindSlot {
            self
        } else {
            GuardView {
                phase: Phase::RenderPrompt,
                slot: match reply {
                    Some(slots) => processing_slot(slots),
                    None => None,
                },
                ..self
            }
        }
    }

    /// With the nudge shown to the client as part of the thought.
    pub open spec fn nudged(self) -> GuardView {
        let delta = one_text("reasoning_content"@, closing_text(self.repeated));
        match self.front {
            FrontView::Chat => self.sending(self.chunk_frame(delta, None), false),
            FrontView::Messages(_) => self.translating(delta, false),
        }
    }

    /// After the reply with the rendered prompt. The prompt of the continuation
    /// is that, everything generated so far, the nudge, what was being repeated
    /// and the closing tag.
    pub open spec fn after_prompt(self, reply: Option<JsonView>) -> GuardView {
        if self.phase != Phase::RenderPrompt {
            self
        } else {
            let base = match reply {
                Some(reply) => rendered_prompt(reply),
                None => None,
            };
            match base {
                Some(base) => GuardView {
                    phase: Phase::Complete,
                    prompt: continuation_prompt(base, self.trace, self.repeated),
                    ..self
                }.nudged(),
                None => self.over(
                    Some(data_frame_text("{\"error\":\"loop-guard: apply-template failed\"}"@)),
                    Some("stop"@),
                ),
            }
        }
    }

    /// At the end of a stream that was cut short.
    pub open spec fn cut_short(self) -> GuardView {
        self.over(Some(data_frame_text("[DONE]"@)), Some("stop"@))
    }

    /// After the answer to the request for the continuation.
    pub open spec fn after_complete(self, reached: bool) -> GuardView {
        if self.phase != Phase::Complete {
            self
        } else if reached {
            GuardView { phase: Phase::Continuing, tail: Seq::empty(), carry: Seq::empty(), ..self }
        } else {
            self.cut_short()
        }
    }

    /// One chunk of a completion for a client of chat completions.
    pub open spec fn chunk_frame(
        self,
        delta: JsonView,
        finish_reason: Option<Seq<char>>,
    ) -> Seq<char> {
        data_frame_text(
            json_text(
                chat_chunk(
                    self.meta.id,
                    self.meta.model,
                    self.meta.created,
                    delta,
                    finish_reason,
                ),
            ),
        )
    }

    /// With what the continuation says passed on.
    pub open spec fn saying(self, content: Option<Seq<char>>) -> GuardView {
        match content {
            Some(content) => if content.len() == 0 {
                self
            } else {
                match self.front {
                    FrontView::Chat => self.sending(
                        self.chunk_frame(one_text("content"@, content), None),
                        true,
                    ),
                    FrontView::Messages(_) => self.translating(one_text("content"@, content), true),
                }
            },
            None => self,
        }
    }

    /// With the end of the continuation passed on.
    pub open spec fn stopping(self, stop: bool) -> GuardView {
        match self.front {
            FrontView::Chat => if stop {
                self.sending(
                    self.chunk_frame(JsonView::Object(Map::empty()), Some("stop"@)),
                    false,
                )
            } else {
                self
            },
            FrontView::Messages(_) => self,
        }
    }

    /// With a payload of the continuation passed on.
    pub open spec fn continued(self, parsed: Option<JsonView>) -> GuardView {
        match parsed {
            Some(reply) => self.saying(reply.field_text("content"@)).stopping(reply.flag("stop"@)),
            None => self,
        }
    }

    /// With some payloads of the continuation passed on.
    pub open spec fn continued_all(self, replies: Seq<Seq<char>>) -> GuardView
        decreases replies.len(),
    {
        if replies.len() == 0 {
            self
        } else {
            self.continued_all(replies.drop_last()).continued(parsed_text(replies.last()))
        }
    }

    /// After a chunk of the continuation has arrived.
    pub open spec fn after_completion_chunk(self, chunk: Seq<char>) -> GuardView {
        if self.phase != Phase::Continuing {
            self
        } else {
            GuardView { carry: open_line(self.carry + chunk), ..self }.continued_all(
                payloads(complete_lines(self.carry + chunk)),
            )
        }
    }

    /// After bytes of the continuation have arrived.
    pub open spec fn after_completion_bytes(self, bytes: Seq<u8>) -> GuardView {
        if self.phase != Phase::Continuing {
            self
        } else {
            let all = self.tail + bytes;
            GuardView { tail: cut_part(all), ..self }.after_completion_chunk(
                decoded(whole_part(all)),
            )
        }
    }

    /// After the continuation has ended.
    pub open spec fn after_completion_end(self) -> GuardView {
        if self.phase != Phase::Continuing {
            self
        } else {
            self.cut_short()
        }
    }

    /// What is to be done next, and the state behind it.
    pub open spec fn next(self) -> (GuardView, ActionView) {
        if self.outbox.len() > 0 {
            (
                GuardView { outbox: self.outbox.drop_first(), ..self },
                ActionView::Send(self.outbox[0].0, self.outbox[0].1),
            )
        } else {
            (
                self,
                match self.phase {
                    Phase::Connect => ActionView::Connect(json_text(self.body)),
                    Phase::Reading => ActionView::NextChunk,
                    Phase::Judging => ActionView::Measure,
                    Phase::FindSlot => ActionView::FindSlot,
                    Phase::RenderPrompt => ActionView::RenderPrompt(
                        json_text(template_request(self.messages)),
                    ),
                    Phase::Complete => ActionView::Complete(
                        json_text(completion_request(self.prompt, self.body, self.slot)),
                    ),
                    Phase::Continuing => ActionView::NextCompletionChunk,
                    Phase::Closed => ActionView::Finished,
                },
            )
        }
    }
}

/// A guarded stream.
pub struct GuardStream {
    front: Front,
    tracker: StepTracker,
    body: Json,
    messages: Json,
    phase: Phase,
    outbox: Vec<Outgoing>,
    tail: Vec<u8>,
    carry: String,
    chunk: String,
    queue: Vec<String>,
    held: Json,
    pending: Vec<StepQuery>,
    trace: String,
    meta: Meta,
    meta_seen: bool,
    saw_done: bool,
    finish_reason: Option<String>,
    reason: Option<String>,
    repeated: String,
    slot: Option<i64>,
    prompt: String,
}

impl View for GuardStream {
    type V = GuardView;

    closed spec fn view(&self) -> GuardView {
        GuardView {
            front: self.front@,
            tracker: self.tracker@,
            body: self.body@,
            messages: self.messages@,
            phase: self.phase,
            outbox: outgoing_views(self.outbox@),
            tail: self.tail@,
            carry: self.carry@,
            chunk: self.chunk@,
            queue: views(self.queue@),
            held: self.held@,
            pending: query_views(self.pending@),
            trace: self.trace@,
            meta: self.meta@,
            meta_seen: self.meta_seen,
            saw_done: self.saw_done,
            finish_reason: string_view(self.finish_reason),
            reason: string_view(self.reason),
            repeated: self.repeated@,
            slot: self.slot,
            prompt: self.prompt@,
        }
    }
}

/// Builds the JSON object with one text field.
fn make_one_text(key: &str, s: &str) -> (json: Json)
    ensures
        json@ == one_text(key@, s@),
{
    let mut fields = no_entries();
    put(&mut fields, key, text(s));
    Json::Object(fields)
}

/// Reads what identifies a completion from its first chunk.
fn meta_in(chunk: &Json) -> (meta: Meta)
    ensures
        meta@ == meta_of(chunk@),
{
    let created: i64 = match chunk.get("created") {
        Some(created) => match created.as_i64() {
            Some(n) => n,
            None => 0,
        },
        None => 0,
    };
    Meta {
        id: chunk.get_str_or("id", "chatcmpl-loop-guard"),
        model: chunk.get_str_or("model", "loop-guard"),
        created,
    }
}

/// A frame of a stream with the given payload.
fn text_frame(payload: &str) -> (frame: String)
    ensures
        frame@ == data_frame_text(payload@),
{
    "data: ".to_owned().concat(payload).concat("\n\n")
}

/// Parses a reply, if there was one.
fn parse_reply(reply: Option<&[u8]>) -> (json: Option<Json>)
    ensures
        json_option(json) == parsed_reply(reply),
{
    match reply {
        Some(bytes) => parse_bytes(bytes),
        None => None,
    }
}

/// Puts texts for the client at the end of the outbox.
fn enqueue(outbox: &mut Vec<Outgoing>, frames: Vec<String>, vital: bool)
    ensures
        outgoing_views(final(outbox)@) == outgoing_views(old(outbox)@) + all_outgoing(
            views(frames@),
            vital,
        ),
{
    let ghost before = outgoing_views(outbox@);
    let ghost frames_view = views(frames@);
    proof {
        assert(before + all_outgoing(frames_view.take(0), vital) =~= before);
    }
    for frame in it: frames
        invariant
            frames_view == views(it.seq()),
            outgoing_views(outbox@) == before + all_outgoing(
                frames_view.take(it.index() as int),
                vital,
            ),
    {
        let ghost now = outbox@;
        let ghost i = it.index() as int;
        outbox.push(Outgoing { text: frame, vital });
        proof {
            assert(outgoing_views(outbox@) =~= outgoing_views(now).push((frame@, vital)));
            assert(frames_view.take(i + 1) =~= frames_view.take(i).push(frame@));
            assert(all_outgoing(frames_view.take(i + 1), vital) =~= all_outgoing(
                frames_view.take(i),
                vital,
            ).push((frame@, vital)));
        }
    }
    proof {
        assert(frames_view.take(frames_view.len() as int) =~= frames_view);
    }
}

impl GuardStream {
    /// Does every part of the stream fit the others?
    pub closed spec fn wf(self) -> bool {
        &&& self.tracker.wf()
        &&& self.phase == Phase::Judging ==> self.pending@.len() > 0
        &&& forall|i: int|
            0 <= i < self.pending@.len() ==> (#[trigger] self.pending@[i]).step_idx
                < self.tracker@.steps.len()
    }

    /// Queues a text for the client.
    fn send(&mut self, text: String, vital: bool)
        requires
            old(self).wf(),
        ensures
            final(self).wf(),
            final(self)@ == old(self)@.sending(text@, vital),
    {
        self.outbox.push(Outgoing { text, vital });
        assert(self@ =~= old(self)@.sending(text@, vital));
    }

    /// Translates a delta for a client of the Messages API.
    fn translate(&mut self, delta: &Json, vital: bool)
        requires
            old(self).wf(),
        ensures
            final(self).wf(),
            final(self)@ == old(self)@.translating(delta@, vital),
    {
        match &mut self.front {
            Front::Chat => {},
            Front::Messages(state) => {
                let frames = state.feed_delta(delta);
                enqueue(&mut self.outbox, frames, vital);
            },
        }
        assert(self@ =~= old(self)@.translating(delta@, vital));
    }

    /// Ends the stream: a client of chat completions gets the given last word,
    /// if any; for one of the Messages API the message is finished.
    fn end(&mut self, last_word: Option<String>, finish_reason: Option<&str>)
        requires
            old(self).wf(),
        ensures
            final(self).wf(),
            final(self)@ == old(self)@.over(string_view(last_word), str_view(finish_reason)),
    {
        self.phase = Phase::Closed;
        match &mut self.front {
            Front::Chat => match last_word {
                Some(frame) => {
                    self.outbox.push(Outgoing { text: frame, vital: false });
                },
                None => {},
            },
            Front::Messages(state) => {
                let frames = state.finish(finish_reason);
                enqueue(&mut self.outbox, frames, false);
            },
        }
        assert(self@ =~= old(self)@.over(string_view(last_word), str_view(finish_reason)));
    }

    /// Reports whether the request for the completion reached the server.
    pub fn connected(&mut self, reached: bool)
        requires
            old(self).wf(),
        ensures
            final(self).wf(),
            final(self)@ == old(self)@.after_connect(reached),
    {
        if self.phase != Phase::Connect {
            return;
        }
        if reached {
            self.phase = Phase::Reading;
            self.tail = Vec::new();
            self.carry = String::new();
        } else {
            let frame = text_frame("{\"error\":\"loop-guard: upstream unreachable\"}");
            self.end(Some(frame), Some("stop"));
        }
        assert(self@ =~= old(self)@.after_connect(reached));
    }

    /// Deals with the payload at hand once it has turned out to be no repetition.
    fn settle(&mut self)
        requires
            old(self).wf(),
        ensures
            final(self).wf(),
            final(self)@ == old(self)@.settled(),
    {
        let translated = match &self.front {
            Front::Chat => false,
            Front::Messages(_) => true,
        };
        if translated {
            match finish_reason_in(&self.held) {
                Some(reason) => {
                    self.finish_reason = Some(reason);
                },
                None => {},
            }
            let delta = delta_in(&self.held);
            self.translate(&delta, true);
        }
        assert(self@ =~= old(self)@.settled());
    }

    /// Takes in a payload of the completion, or passes over one that is no JSON.
    pub fn absorb(&mut self, parsed: Option<Json>)
        requires
            old(self).wf(),
            old(self)@.phase != Phase::Judging,
        ensures
            final(self).wf(),
            final(self)@ == old(self)@.absorbed(json_option(parsed)),
    {
        let Some(chunk) = parsed else {
            return;
        };
        if !self.meta_seen {
            self.meta = meta_in(&chunk);
            self.meta_seen = true;
        }
        let delta = delta_in(&chunk);
        let piece = trace_piece_of(&delta);
        let ghost before = self.tracker@;
        self.held = chunk;
        if piece.as_str().is_empty() {
            self.pending = Vec::new();
            proof {
                assert(before.steps.len() - before.steps.len() == 0);
                assert(query_views(self.pending@) =~= queries_from(before.steps, before.steps.len()));
                assert(self.trace@ + piece@ =~= self.trace@);
            }
        } else {
            self.trace.append(piece.as_str());
            self.pending = self.tracker.feed(piece.as_str());
            proof {
                law_finished_steps_stay(before, piece@);
                lemma_queries_are_numbered(self.pending@, self.tracker@.steps, before.steps.len());
            }
        }
        if self.pending.len() == 0 {
            self.settle();
        }
        assert(self@ =~= old(self)@.absorbed(json_option(parsed)));
    }

    /// Takes in the next payload of the chunk.
    fn take_payload(&mut self)
        requires
            old(self).wf(),
            old(self)@.phase != Phase::Judging,
            old(self)@.queue.len() > 0,
        ensures
            final(self).wf(),
            final(self)@ == old(self)@.took_payload(),
    {
        let ghost queue = self@.queue;
        assert(queue.len() == self.queue@.len());
        let payload = self.queue.remove(0);
        proof {
            assert(views(self.queue@) =~= queue.drop_first());
            assert(payload@ == queue[0]);
            assert(self@ =~= (GuardView { queue: queue.drop_first(), ..old(self)@ }));
        }
        let parsed = parse_text(payload.as_str());
        assert(json_option(parsed) == parsed_text(queue[0]));
        self.absorb(parsed);
    }

    /// Takes in payloads until a step is to be measured or none is left.
    fn digest(&mut self)
        requires
            old(self).wf(),
            old(self)@.phase != Phase::Judging,
        ensures
            final(self).wf(),
            final(self)@ == old(self)@.digested(),
    {
        let ghost goal = self@.digested();
        while self.pending.len() == 0 && self.queue.len() > 0
            invariant
                self.wf(),
                self@.phase != Phase::Judging,
                self@.digested() == goal,
            decreases self.queue@.len(),
        {
            assert(self@.queue.len() == self.queue@.len());
            assert(self@.pending.len() == self.pending@.len());
            let ghost before = self@;
            self.take_payload();
            assert(self@.queue.len() == before.queue.len() - 1);
            assert(self@.queue.len() == self.queue@.len());
        }
        let ghost last = self@;
        assert(last.queue.len() == self.queue@.len());
        assert(last.pending.len() == self.pending@.len());
        if self.pending.len() > 0 {
            self.phase = Phase::Judging;
        } else {
            self.phase = Phase::Reading;
            match &self.front {
                Front::Chat => {
                    let chunk = self.chunk.as_str().to_owned();
                    self.send(chunk, true);
                },
                Front::Messages(_) => {},
            }
        }
        assert(self@ =~= last.digested());
    }

    /// Takes in a chunk of the completion.
    pub fn chunk_text(&mut self, chunk: String)
        requires
            old(self).wf(),
        ensures
            final(self).wf(),
            final(self)@ == old(self)@.after_chunk(chunk@),
    {
        if self.phase != Phase::Reading {
            return;
        }
        let heard = self.carry.as_str().to_owned().concat(chunk.as_str());
        if holds_end_marker(heard.as_str()) {
            self.saw_done = true;
        }
        self.queue = extract_sse_payloads(chunk.as_str(), &mut self.carry);
        self.pending = Vec::new();
        self.chunk = chunk;
        assert(self@ =~= old(self)@.hearing(chunk@));
        self.digest();
    }

    /// Takes in a chunk of the completion, as it came off the wire.
    pub fn chunk(&mut self, bytes: &[u8])
        requires
            old(self).wf(),
        ensures
            final(self).wf(),
            final(self)@ == old(self)@.after_bytes(bytes@),
    {
        if self.phase != Phase::Reading {
            return;
        }
        let text = decode_chunk(&mut self.tail, bytes);
        assert(self@ =~= (GuardView { tail: cut_part(old(self)@.tail + bytes@), ..old(self)@ }));
        if !text.as_str().is_empty() {
            self.chunk_text(text);
        }
    }

    /// Takes in the measured similarities of the step that `query` describes, and
    /// says what they came to. A measurement of another shape is passed over.
    pub fn measured(&mut self, measurement: &Measurement) -> (event: Option<StepEvent>)
        requires
            old(self).wf(),
        ensures
            final(self).wf(),
            final(self)@ == old(self)@.after_measure(
                measurement.similarities@,
                views(measurement.rendered@),
                measurement.elapsed@,
            ),
            match event {
                Some(event) => {
                    &&& old(self)@.phase == Phase::Judging
                    &&& event.step_idx == old(self)@.pending[0].step_idx
                    &&& event.step_idx == measurement.similarities@.len()
                    &&& event.step_idx == measurement.rendered@.len()
                    &&& is_best_match(
                        measurement.similarities@,
                        event.best_match_idx,
                        event.similarity,
                    )
                },
                None => old(self)@.phase != Phase::Judging || measurement.similarities@.len()
                    != old(self)@.pending[0].step_idx || measurement.rendered@.len() != old(
                    self,
                )@.pending[0].step_idx,
            },
    {
        let ghost v = self@;
        assert(v.pending.len() == self.pending@.len());
        assert(views(measurement.rendered@).len() == measurement.rendered@.len());
        if self.phase != Phase::Judging {
            return None;
        }
        let step_idx: usize = self.pending[0].step_idx;
        assert(v.pending[0] == self.pending@[0]@);
        if measurement.similarities.len() != step_idx || measurement.rendered.len() != step_idx {
            return None;
        }
        let (event, hit) = self.tracker.judge(step_idx, measurement);
        proof {
            let best = best_of(measurement.similarities@);
            let found = (event.best_match_idx, event.similarity);
            assert(is_best_match(measurement.similarities@, found.0, found.1));
            law_best_match_is_unique(
                measurement.similarities@,
                best.0,
                best.1,
                event.best_match_idx,
                event.similarity,
            );
        }
        match hit {
            Some(hit) => {
                match event.best_match_idx {
                    Some(b) => {
                        self.repeated = self.tracker.step_text(b);
                    },
                    None => {},
                }
                self.phase = Phase::FindSlot;
                self.reason = Some(hit.reason);
            },
            None => {
                self.pending.remove(0);
                assert(query_views(self.pending@) =~= v.pending.drop_first());
                if self.pending.len() == 0 {
                    self.phase = Phase::Reading;
                    assert(self@ =~= (GuardView {
                        phase: Phase::Reading,
                        pending: v.pending.drop_first(),
                        ..v
                    }));
                    self.settle();
                    self.digest();
                }
            },
        }
        assert(self@ =~= v.after_measure(
            measurement.similarities@,
            views(measurement.rendered@),
            measurement.elapsed@,
        ));
        Some(event)
    }

    /// Takes away what is left of a character that was never completed, and shows it
    /// to a client of chat completions.
    fn empty_tail(&mut self)
        requires
            old(self).wf(),
        ensures
            final(self).wf(),
            final(self)@ == old(self)@.emptied(),
    {
        let chat = match &self.front {
            Front::Chat => true,
            Front::Messages(_) => false,
        };
        let shown = chat && !self.tail.is_empty();
        let text = decode(self.tail.as_slice());
        self.tail = Vec::new();
        assert(self@ =~= (GuardView { tail: Seq::empty(), ..old(self)@ }));
        if shown {
            self.send(text, true);
        }
    }

    /// Reports that the completion has ended.
    pub fn ended(&mut self)
        requires
            old(self).wf(),
        ensures
            final(self).wf(),
            final(self)@ == old(self)@.after_end(),
    {
        if self.phase != Phase::Reading {
            return;
        }
        let marked = self.saw_done || self.tail.is_empty() && is_end_line(self.carry.as_str());
        self.empty_tail();
        let last_word: Option<String> = if marked {
            None
        } else {
            Some(done_frame())
        };
        let finish_reason: Option<String> = match &self.finish_reason {
            Some(reason) => Some(reason.as_str().to_owned()),
            None => None,
        };
        match &finish_reason {
            Some(reason) => {
                self.end(last_word, Some(reason.as_str()));
            },
            None => {
                self.end(last_word, None);
            },
        }
    }

    /// Reports that nothing has come for a while.
    pub fn idle(&mut self)
        requires
            old(self).wf(),
        ensures
            final(self).wf(),
            final(self)@ == old(self)@.after_silence(),
    {
        if self.phase != Phase::Reading {
            return;
        }
        match &self.front {
            Front::Chat => {},
            Front::Messages(_) => {
                self.send(": keep-alive\n\n".to_owned(), true);
            },
        }
    }

    /// Takes in which slots there are, if the server said.
    pub fn slots_listed(&mut self, slots: Option<Json>)
        requires
            old(self).wf(),
        ensures
            final(self).wf(),
            final(self)@ == old(self)@.after_slots(json_option(slots)),
    {
        if self.phase != Phase::FindSlot {
            return;
        }
        self.phase = Phase::RenderPrompt;
        self.slot = match &slots {
            Some(slots) => current_processing_slot(slots),
            None => None,
        };
        assert(self@ =~= old(self)@.after_slots(json_option(slots)));
    }

    /// Takes in the reply to the question for the slots, or that there was none.
    pub fn slots_reply(&mut self, reply: Option<&[u8]>)
        requires
            old(self).wf(),
        ensures
            final(self).wf(),
            final(self)@ == old(self)@.after_slots(parsed_reply(reply)),
    {
        let slots = parse_reply(reply);
        self.slots_listed(slots);
    }

    /// Takes in the rendered prompt, if the server gave one.
    pub fn prompt_rendered(&mut self, reply: Option<Json>)
        requires
            old(self).wf(),
        ensures
            final(self).wf(),
            final(self)@ == old(self)@.after_prompt(json_option(reply)),
    {
        if self.phase != Phase::RenderPrompt {
            return;
        }
        let base: Option<String> = match &reply {
            Some(reply) => prompt_in(reply),
            None => None,
        };
        match base {
            Some(base) => {
                let closing = make_closing_text(self.repeated.as_str());
                self.prompt = base.concat(self.trace.as_str()).concat(closing.as_str());
                self.phase = Phase::Complete;
                assert(self@ =~= (GuardView {
                    phase: Phase::Complete,
                    prompt: continuation_prompt(base@, old(self)@.trace, old(self)@.repeated),
                    ..old(self)@
                }));
                let delta = make_one_text("reasoning_content", closing.as_str());
                self.show(delta, None, false);
            },
            None => {
                let frame = text_frame("{\"error\":\"loop-guard: apply-template failed\"}");
                self.end(Some(frame), Some("stop"));
            },
        }
    }

    /// Takes in the reply to the request for the prompt, or that there was none.
    pub fn prompt_reply(&mut self, reply: Option<&[u8]>)
        requires
            old(self).wf(),
        ensures
            final(self).wf(),
            final(self)@ == old(self)@.after_prompt(parsed_reply(reply)),
    {
        let reply = parse_reply(reply);
        self.prompt_rendered(reply);
    }

    /// Shows a delta to the client, in the protocol it speaks.
    fn show(&mut self, delta: Json, finish_reason: Option<&str>, vital: bool)
        requires
            old(self).wf(),
        ensures
            final(self).wf(),
            final(self)@ == match old(self)@.front {
                FrontView::Chat => old(self)@.sending(
                    old(self)@.chunk_frame(delta@, str_view(finish_reason)),
                    vital,
                ),
                FrontView::Messages(_) => old(self)@.translating(delta@, vital),
            },
    {
        let translated = match &self.front {
            Front::Chat => false,
            Front::Messages(_) => true,
        };
        if translated {
            self.translate(&delta, vital);
        } else {
            let frame = make_chat_chunk(
                self.meta.id.as_str(),
                self.meta.model.as_str(),
                self.meta.created,
                delta,
                finish_reason,
            );
            self.send(frame, vital);
        }
    }

    /// Reports whether the request for the continuation reached the server.
    pub fn completing(&mut self, reached: bool)
        requires
            old(self).wf(),
        ensures
            final(self).wf(),
            final(self)@ == old(self)@.after_complete(reached),
    {
        if self.phase != Phase::Complete {
            return;
        }
        if reached {
            self.phase = Phase::Continuing;
            self.tail = Vec::new();
            self.carry = String::new();
            assert(self@ =~= old(self)@.after_complete(reached));
        } else {
            self.end(Some(done_frame()), Some("stop"));
        }
    }

    /// Passes on a payload of the continuation, or passes over one that is no
    /// JSON.
    pub fn carry_on(&mut self, parsed: Option<Json>)
        requires
            old(self).wf(),
        ensures
            final(self).wf(),
            final(self)@ == old(self)@.continued(json_option(parsed)),
    {
        let Some(reply) = parsed else {
            return;
        };
        match reply.get_str("content") {
            Some(content) => if !content.is_empty() {
                let delta = make_one_text("content", content);
                self.show(delta, None, true);
            },
            None => {},
        }
        let chat = match &self.front {
            Front::Chat => true,
            Front::Messages(_) => false,
        };
        if chat && reply.get_flag("stop") {
            self.show(Json::Object(no_entries()), Some("stop"), false);
        }
    }

    /// Takes in a chunk of the continuation.
    pub fn completion_text(&mut self, chunk: &str)
        requires
            old(self).wf(),
        ensures
            final(self).wf(),
            final(self)@ == old(self)@.after_completion_chunk(chunk@),
    {
        if self.phase != Phase::Continuing {
            return;
        }
        let replies = extract_sse_payloads(chunk, &mut self.carry);
        let ghost all = views(replies@);
        let ghost start = GuardView { carry: open_line(old(self)@.carry + chunk@), ..old(self)@ };
        assert(self@ =~= start);
        assert(all.take(0) =~= Seq::empty());
        let mut i: usize = 0;
        while i < replies.len()
            invariant
                self.wf(),
                all == views(replies@),
                i <= replies@.len(),
                self@ == start.continued_all(all.take(i as int)),
            decreases replies@.len() - i,
        {
            assert(all.take(i + 1).drop_last() =~= all.take(i as int));
            assert(all.take(i + 1).last() == replies@[i as int]@);
            let parsed = parse_text(replies[i].as_str());
            assert(json_option(parsed) == parsed_text(replies@[i as int]@));
            self.carry_on(parsed);
            i += 1;
        }
        assert(all.take(i as int) =~= all);
    }

    /// Takes in a chunk of the continuation, as it came off the wire.
    pub fn completion_chunk(&mut self, bytes: &[u8])
        requires
            old(self).wf(),
        ensures
            final(self).wf(),
            final(self)@ == old(self)@.after_completion_bytes(bytes@),
    {
        if self.phase != Phase::Continuing {
            return;
        }
        let chunk = decode_chunk(&mut self.tail, bytes);
        assert(self@ =~= (GuardView { tail: cut_part(old(self)@.tail + bytes@), ..old(self)@ }));
        self.completion_text(chunk.as_str());
    }

    /// Reports that the continuation has ended.
    pub fn completion_ended(&mut self)
        requires
            old(self).wf(),
        ensures
            final(self).wf(),
            final(self)@ == old(self)@.after_completion_end(),
    {
        if self.phase != Phase::Continuing {
            return;
        }
        self.end(Some(done_frame()), Some("stop"));
    }

    /// Says what is to be done next.
    pub fn poll(&mut self) -> (action: Action)
        requires
            old(self).wf(),
        ensures
            final(self).wf(),
            final(self)@ == old(self)@.next().0,
            action@ == old(self)@.next().1,
    {
        let ghost v = self@;
        assert(v.outbox.len() == self.outbox@.len());
        if self.outbox.len() > 0 {
            let out = self.outbox.remove(0);
            assert(outgoing_views(self.outbox@) =~= v.outbox.drop_first());
            assert(v.outbox[0] == (out.text@, out.vital));
            assert(self@ =~= v.next().0);
            return Action::Send(out);
        }
        match self.phase {
            Phase::Connect => Action::Connect(to_text(&self.body)),
            Phase::Reading => Action::NextChunk,
            Phase::Judging => Action::Measure,
            Phase::FindSlot => Action::FindSlot,
            Phase::RenderPrompt => {
                Action::RenderPrompt(to_text(&make_template_request(&self.messages)))
            },
            Phase::Complete => {
                let request = make_completion_request(self.prompt.as_str(), &self.body, self.slot);
                Action::Complete(to_text(&request))
            },
            Phase::Continuing => Action::NextCompletionChunk,
            Phase::Closed => Action::Finished,
        }
    }

    /// The step that is to be measured, if one is.
    pub fn query(&self) -> (query: Option<&StepQuery>)
        requires
            self.wf(),
        ensures
            match query {
                Some(query) => self@.phase == Phase::Judging && query@ == self@.pending[0],
                None => self@.phase != Phase::Judging,
            },
    {
        if self.phase == Phase::Judging {
            Some(&self.pending[0])
        } else {
            None
        }
    }

    /// Why the thought was closed by force, once it was.
    pub fn reason(&self) -> (reason: Option<&str>)
        ensures
            str_view(reason) == self@.reason,
    {
        match &self.reason {
            Some(reason) => Some(reason.as_str()),
            None => None,
        }
    }

    /// A stream that has not begun.
    fn begin(
        front: Front,
        body: Json,
        threshold: u64,
        min_step_words: usize,
        request_id: String,
    ) -> (stream: GuardStream)
        ensures
            stream.wf(),
            stream@ == GuardView::begun(
                front@,
                body@,
                threshold,
                min_step_words as nat,
                request_id@,
            ),
    {
        let messages = match body.get("messages") {
            Some(messages) => messages.duplicate(),
            None => array_of(Vec::new()),
        };
        let stream = GuardStream {
            front,
            tracker: StepTracker::new(threshold, min_step_words, request_id),
            body,
            messages,
            phase: Phase::Connect,
            outbox: Vec::new(),
            tail: Vec::new(),
            carry: String::new(),
            chunk: String::new(),
            queue: Vec::new(),
            held: Json::Null,
            pending: Vec::new(),
            trace: String::new(),
            meta: Meta { id: String::new(), model: String::new(), created: 0 },
            meta_seen: false,
            saw_done: false,
            finish_reason: None,
            reason: None,
            repeated: String::new(),
            slot: None,
            prompt: String::new(),
        };
        assert(json_views(Seq::<Json>::empty()) =~= Seq::empty());
        assert(stream@ =~= GuardView::begun(
            front@,
            body@,
            threshold,
            min_step_words as nat,
            request_id@,
        ));
        stream
    }

    /// A stream for a client of chat completions.
    pub fn chat(body: Json, threshold: u64, min_step_words: usize, request_id: String) -> (stream:
        GuardStream)
        ensures
            stream.wf(),
            stream@ == GuardView::begun(
                FrontView::Chat,
                body@,
                threshold,
                min_step_words as nat,
                request_id@,
            ),
    {
        Self::begin(Front::Chat, body, threshold, min_step_words, request_id)
    }

    /// A stream for a client of the Messages API: the message is announced at
    /// once.
    pub fn messages(
        body: Json,
        model: String,
        threshold: u64,
        min_step_words: usize,
        request_id: String,
    ) -> (stream: GuardStream)
        ensures
            stream.wf(),
            stream@ == GuardView::announced(
                body@,
                model@,
                threshold,
                min_step_words as nat,
                request_id@,
            ),
    {
        let message_id = "msg-".to_owned().concat(request_id.as_str());
        let mut state = AnthropicStreamState::new(message_id, model);
        let announcement = state.message_start_event();
        let mut stream = Self::begin(
            Front::Messages(state),
            body,
            threshold,
            min_step_words,
            request_id,
        );
        stream.send(announcement, false);
        stream
    }
}

} // verus!
