//! Incremental translation of a streamed chat completion into the events of a
//! streamed Messages API message.

use crate::anthropic::{empty_object, map_stop_reason, quarter_up, stop_reason};
use crate::json::{json_views, no_entries, put, text, text_view, Json, JsonView};
use crate::sse::{sse_event, sse_event_text, str_view};
use crate::text::{byte_len, views};
use std::collections::HashMap;
use vstd::prelude::*;
use vstd::string::StringExecFns;
use vstd::utf8::encode_utf8;

verus! {

broadcast use vstd::std_specs::hash::group_hash_axioms;

/// What a content block holds; a tool call is known by its index in the
/// completion.
#[derive(Clone, Copy, Debug, PartialEq, Eq, Structural)]
pub enum BlockKind {
    Thinking,
    Text,
    ToolUse(u64),
}

/// An event of a streamed message. The id and the name of a block are those of
/// its tool call.
pub enum StreamEvent {
    MessageStart { id: Seq<char>, model: Seq<char> },
    BlockStart { index: usize, kind: BlockKind, id: Seq<char>, name: Seq<char> },
    BlockDelta { index: usize, kind: BlockKind, text: Seq<char> },
    BlockStop { index: usize },
    MessageDelta { stop_reason: Seq<char>, output_tokens: nat },
    MessageStop,
}

impl StreamEvent {
    /// The name of the event.
    pub open spec fn name(self) -> Seq<char> {
        match self {
            StreamEvent::MessageStart { .. } => "message_start"@,
            StreamEvent::BlockStart { .. } => "content_block_start"@,
            StreamEvent::BlockDelta { .. } => "content_block_delta"@,
            StreamEvent::BlockStop { .. } => "content_block_stop"@,
            StreamEvent::MessageDelta { .. } => "message_delta"@,
            StreamEvent::MessageStop => "message_stop"@,
        }
    }

    /// The data of the event.
    pub open spec fn data(self) -> JsonView {
        let kind = map!["type"@ => text_view(self.name())];
        JsonView::Object(
            match self {
                StreamEvent::MessageStart { id, model } => kind.insert(
                    "message"@,
                    JsonView::Object(
                        map![
                            "id"@ => text_view(id),
                            "type"@ => text_view("message"@),
                            "role"@ => text_view("assistant"@),
                            "content"@ => JsonView::Array(Seq::empty()),
                            "model"@ => text_view(model),
                            "stop_reason"@ => JsonView::Null,
                            "stop_sequence"@ => JsonView::Null,
                            "usage"@ => JsonView::Object(
                                map![
                                    "input_tokens"@ => JsonView::Integer(0),
                                    "output_tokens"@ => JsonView::Integer(0),
                                ],
                            ),
                        ],
                    ),
                ),
                StreamEvent::BlockStart { index, kind: held, id, name } => kind.insert(
                    "index"@,
                    JsonView::Integer(index as int),
                ).insert("content_block"@, empty_block(held, id, name)),
                StreamEvent::BlockDelta { index, kind: held, text } => kind.insert(
                    "index"@,
                    JsonView::Integer(index as int),
                ).insert("delta"@, piece(held, text)),
                StreamEvent::BlockStop { index } => kind.insert(
                    "index"@,
                    JsonView::Integer(index as int),
                ),
                StreamEvent::MessageDelta { stop_reason, output_tokens } => kind.insert(
                    "delta"@,
                    JsonView::Object(
                        map![
                            "stop_reason"@ => text_view(stop_reason),
                            "stop_sequence"@ => JsonView::Null,
                        ],
                    ),
                ).insert(
                    "usage"@,
                    JsonView::Object(
                        map!["output_tokens"@ => JsonView::Integer(output_tokens as int)],
                    ),
                ),
                StreamEvent::MessageStop => kind,
            },
        )
    }

    /// The event as it goes over the wire.
    pub open spec fn framed(self) -> Seq<char> {
        sse_event_text(self.name(), self.data())
    }
}

/// Events as they go over the wire.
pub open spec fn framed_all(events: Seq<StreamEvent>) -> Seq<Seq<char>> {
    events.map_values(|event: StreamEvent| event.framed())
}

/// What is known of a tool call: its id and its name, empty until they have been
/// seen, the arguments that wait for the name, and whether its block has been
/// started.
pub struct CallView {
    pub id: Seq<char>,
    pub name: Seq<char>,
    pub held: Seq<char>,
    pub started: bool,
}

/// How far a streamed message has got.
#[verifier::ext_equal]
pub struct StreamView {
    pub message_id: Seq<char>,
    pub model: Seq<char>,
    /// The index of the next content block.
    pub next_index: usize,
    /// The content block that is open.
    pub current: Option<(BlockKind, usize)>,
    /// The tool calls, by their index in the completion.
    pub tools: Map<u64, CallView>,
    /// How many bytes of thought and text there have been.
    pub output_chars: usize,
    /// Has the message been announced?
    pub started: bool,
}

/// A state, and the events on the way to it.
pub type Progress = (StreamView, Seq<StreamEvent>);

/// A JSON object with a type and one text field.
pub open spec fn tagged_text(kind: Seq<char>, key: Seq<char>, s: Seq<char>) -> JsonView {
    JsonView::Object(map!["type"@ => text_view(kind), key => text_view(s)])
}

/// A block with nothing in it yet.
pub open spec fn empty_block(kind: BlockKind, id: Seq<char>, name: Seq<char>) -> JsonView {
    match kind {
        BlockKind::Thinking => tagged_text("thinking"@, "thinking"@, ""@),
        BlockKind::Text => tagged_text("text"@, "text"@, ""@),
        BlockKind::ToolUse(_) => JsonView::Object(
            map![
                "type"@ => text_view("tool_use"@),
                "id"@ => text_view(id),
                "name"@ => text_view(name),
                "input"@ => empty_object(),
            ],
        ),
    }
}

/// A piece of what a block holds.
pub open spec fn piece(kind: BlockKind, s: Seq<char>) -> JsonView {
    match kind {
        BlockKind::Thinking => tagged_text("thinking_delta"@, "thinking"@, s),
        BlockKind::Text => tagged_text("text_delta"@, "text"@, s),
        BlockKind::ToolUse(_) => tagged_text("input_json_delta"@, "partial_json"@, s),
    }
}

/// The index of a tool call in the completion; zero where absent.
pub open spec fn call_index(call: JsonView) -> u64 {
    match call.field("index"@) {
        Some(value) => match value.unsigned() {
            Some(n) => n,
            None => 0,
        },
        None => 0,
    }
}

/// The arguments that a piece of a tool call brings; none where absent.
pub open spec fn call_arguments(call: JsonView) -> Seq<char> {
    call.at("function"@).text_or("arguments"@, ""@)
}

/// What was seen first, if anything was.
pub open spec fn first_seen(before: Seq<char>, now: Seq<char>) -> Seq<char> {
    if before.len() > 0 {
        before
    } else {
        now
    }
}

/// A tool call of which nothing has been seen.
pub open spec fn unseen_call() -> CallView {
    CallView { id: ""@, name: ""@, held: ""@, started: false }
}

impl CallView {
    /// With the id, the name and the arguments that a piece of the call brings.
    pub open spec fn heard(self, call: JsonView) -> CallView {
        CallView {
            id: first_seen(self.id, call.text_or("id"@, ""@)),
            name: first_seen(self.name, call.at("function"@).text_or("name"@, ""@)),
            held: self.held + call_arguments(call),
            ..self
        }
    }
}

impl StreamView {
    /// With no block open.
    pub open spec fn closed(self) -> Progress {
        match self.current {
            Some((_, index)) => (
                StreamView { current: None, ..self },
                seq![StreamEvent::BlockStop { index }],
            ),
            None => (self, Seq::empty()),
        }
    }

    /// With a new block open.
    pub open spec fn opened(self, kind: BlockKind, id: Seq<char>, name: Seq<char>) -> Progress {
        (
            StreamView {
                next_index: self.next_index.wrapping_add(1),
                current: Some((kind, self.next_index)),
                ..self
            },
            seq![StreamEvent::BlockStart { index: self.next_index, kind, id, name }],
        )
    }

    /// With the open block closed and a new one open.
    pub open spec fn reopened(self, kind: BlockKind, id: Seq<char>, name: Seq<char>) -> Progress {
        let (idle, stop) = self.closed();
        let (busy, start) = idle.opened(kind, id, name);
        (busy, stop + start)
    }

    /// Is a block of this kind open?
    pub open spec fn is_open(self, kind: BlockKind) -> bool {
        match self.current {
            Some((open, _)) => open == kind,
            None => false,
        }
    }

    /// With a block of this kind open: the one that is, or a new one.
    pub open spec fn switched(self, kind: BlockKind, id: Seq<char>, name: Seq<char>) -> Progress {
        if self.is_open(kind) {
            (self, Seq::empty())
        } else {
            self.reopened(kind, id, name)
        }
    }

    /// With a text added to a block of this kind, unless it is empty.
    pub open spec fn added(
        self,
        kind: BlockKind,
        id: Seq<char>,
        name: Seq<char>,
        s: Seq<char>,
    ) -> Progress {
        if s.len() == 0 {
            (self, Seq::empty())
        } else {
            let (ready, events) = self.switched(kind, id, name);
            (
                ready,
                events.push(
                    StreamEvent::BlockDelta { index: (ready.current->0).1, kind, text: s },
                ),
            )
        }
    }

    /// With a thought or a text added and counted.
    pub open spec fn spoken(self, kind: BlockKind, s: Seq<char>) -> Progress {
        let (after, events) = self.added(kind, ""@, ""@, s);
        (
            StreamView {
                output_chars: after.output_chars.wrapping_add(encode_utf8(s).len() as usize),
                ..after
            },
            events,
        )
    }

    /// What is known of a tool call.
    pub open spec fn known_call(self, index: u64) -> CallView {
        if self.tools.contains_key(index) {
            self.tools[index]
        } else {
            unseen_call()
        }
    }

    /// With what is known of a tool call changed.
    pub open spec fn noting(self, index: u64, call: CallView) -> StreamView {
        StreamView { tools: self.tools.insert(index, call), ..self }
    }

    /// With the block of a tool call started, if that has not been done.
    pub open spec fn announced(self, index: u64, call: CallView) -> Progress {
        let noted = self.noting(index, CallView { held: ""@, started: true, ..call });
        if call.started {
            (noted, Seq::empty())
        } else {
            noted.reopened(BlockKind::ToolUse(index), call.id, call.name)
        }
    }

    /// After one piece of a tool call. Until the name of the call has been seen,
    /// nothing is sent, and its arguments are held; then its block is started,
    /// and they follow. Arguments that come when the block has been closed get
    /// another block, for the same call.
    pub open spec fn called(self, piece: JsonView) -> Progress {
        let index = call_index(piece);
        let call = self.known_call(index).heard(piece);
        if call.name.len() == 0 {
            (self.noting(index, call), Seq::empty())
        } else {
            let (ready, start) = self.announced(index, call);
            let (done, more) = ready.added(
                BlockKind::ToolUse(index),
                call.id,
                call.name,
                call.held,
            );
            (done, start + more)
        }
    }

    /// After some pieces of tool calls.
    pub open spec fn called_all(self, calls: Seq<JsonView>) -> Progress
        decreases calls.len(),
    {
        if calls.len() == 0 {
            (self, Seq::empty())
        } else {
            let (before, events) = self.called_all(calls.drop_last());
            let (after, more) = before.called(calls.last());
            (after, events + more)
        }
    }

    /// The tool calls of a delta.
    pub open spec fn calls_of(delta: JsonView) -> Seq<JsonView> {
        match delta.field_array("tool_calls"@) {
            Some(calls) => calls,
            None => Seq::empty(),
        }
    }

    /// After the thought in a delta.
    pub open spec fn thought(self, delta: JsonView) -> Progress {
        self.spoken(BlockKind::Thinking, delta.text_or("reasoning_content"@, ""@))
    }

    /// After the text in a delta.
    pub open spec fn told(self, delta: JsonView) -> Progress {
        self.spoken(BlockKind::Text, delta.text_or("content"@, ""@))
    }

    /// After a delta: its thought, its text and its tool calls.
    pub open spec fn fed(self, delta: JsonView) -> Progress {
        let (thinking, thoughts) = self.thought(delta);
        let (talking, texts) = thinking.told(delta);
        let (done, calls) = talking.called_all(StreamView::calls_of(delta));
        (done, thoughts + texts + calls)
    }

    /// After the end: no block open, and the message closed. A tool call whose
    /// name was never seen cannot be made, and is not part of the message.
    pub open spec fn finished(self, finish_reason: Option<Seq<char>>) -> Progress {
        let (idle, stop) = self.closed();
        (
            idle,
            stop.push(
                StreamEvent::MessageDelta {
                    stop_reason: stop_reason(finish_reason),
                    output_tokens: quarter_up(self.output_chars as nat),
                },
            ).push(StreamEvent::MessageStop),
        )
    }
}

/// What is known of a tool call.
pub struct ToolCall {
    id: String,
    name: String,
    held: String,
    started: bool,
}

impl View for ToolCall {
    type V = CallView;

    closed spec fn view(&self) -> CallView {
        CallView {
            id: self.id@,
            name: self.name@,
            held: self.held@,
            started: self.started,
        }
    }
}

/// The models of some tool calls.
pub open spec fn call_views(calls: Map<u64, ToolCall>) -> Map<u64, CallView> {
    calls.map_values(|call: ToolCall| call@)
}

/// Follows one streamed message: text, thinking and tool calls each get content
/// blocks of their own, as the wire format requires, and at most one block is
/// open at a time.
pub struct AnthropicStreamState {
    message_id: String,
    model: String,
    next_index: usize,
    current_block: Option<(BlockKind, usize)>,
    /// The tool calls, by their index in the completion.
    tool_calls: HashMap<u64, ToolCall>,
    output_chars: usize,
    started: bool,
}

impl View for AnthropicStreamState {
    type V = StreamView;

    closed spec fn view(&self) -> StreamView {
        StreamView {
            message_id: self.message_id@,
            model: self.model@,
            next_index: self.next_index,
            current: self.current_block,
            tools: call_views(self.tool_calls@),
            output_chars: self.output_chars,
            started: self.started,
        }
    }
}

/// Builds the data of an event that has a block index.
fn indexed(name: &str, index: usize) -> (fields: Vec<(String, Json)>)
    ensures
        crate::json::object_view(fields@) == map!["type"@ => text_view(name@)].insert(
            "index"@,
            JsonView::Integer(index as int),
        ),
{
    let mut fields = no_entries();
    put(&mut fields, "type", text(name));
    put(&mut fields, "index", Json::Unsigned(index as u64));
    fields
}

/// Appends an event.
fn emit(out: &mut Vec<String>, name: &str, data: Json, Ghost(event): Ghost<StreamEvent>)
    requires
        name@ == event.name(),
        data@ == event.data(),
    ensures
        views(final(out)@) == views(old(out)@) + framed_all(seq![event]),
{
    let ghost before = out@;
    out.push(sse_event(name, &data));
    assert(views(out@) =~= views(before) + framed_all(seq![event]));
}

/// Events in a row are framed in a row.
proof fn lemma_framed_concat(a: Seq<StreamEvent>, b: Seq<StreamEvent>)
    ensures
        framed_all(a + b) == framed_all(a) + framed_all(b),
{
    assert(framed_all(a + b) =~= framed_all(a) + framed_all(b));
}

/// Builds a JSON object with a type and one text field.
fn make_tagged_text(kind: &str, key: &str, s: &str) -> (json: Json)
    ensures
        json@ == tagged_text(kind@, key@, s@),
{
    let mut fields = no_entries();
    put(&mut fields, "type", text(kind));
    put(&mut fields, key, text(s));
    Json::Object(fields)
}

/// Builds a block with nothing in it yet.
fn make_empty_block(kind: BlockKind, id: &str, name: &str) -> (json: Json)
    ensures
        json@ == empty_block(kind, id@, name@),
{
    match kind {
        BlockKind::Thinking => make_tagged_text("thinking", "thinking", ""),
        BlockKind::Text => make_tagged_text("text", "text", ""),
        BlockKind::ToolUse(_) => {
            let mut block = no_entries();
            put(&mut block, "type", text("tool_use"));
            put(&mut block, "id", text(id));
            put(&mut block, "name", text(name));
            put(&mut block, "input", Json::Object(no_entries()));
            Json::Object(block)
        },
    }
}

/// Builds a piece of what a block holds.
fn make_piece(kind: BlockKind, s: &str) -> (json: Json)
    ensures
        json@ == piece(kind, s@),
{
    match kind {
        BlockKind::Thinking => make_tagged_text("thinking_delta", "thinking", s),
        BlockKind::Text => make_tagged_text("text_delta", "text", s),
        BlockKind::ToolUse(_) => make_tagged_text("input_json_delta", "partial_json", s),
    }
}

/// What was seen first, if anything was.
fn keep_first(before: &str, now: &str) -> (s: String)
    ensures
        s@ == first_seen(before@, now@),
{
    if before.is_empty() {
        now.to_owned()
    } else {
        before.to_owned()
    }
}

impl AnthropicStreamState {
    /// A message of which nothing has been streamed yet.
    pub fn new(message_id: String, model: String) -> (state: AnthropicStreamState)
        ensures
            state@ == (StreamView {
                message_id: message_id@,
                model: model@,
                next_index: 0,
                current: None,
                tools: Map::empty(),
                output_chars: 0,
                started: false,
            }),
    {
        AnthropicStreamState {
            message_id,
            model,
            next_index: 0,
            current_block: None,
            tool_calls: HashMap::new(),
            output_chars: 0,
            started: false,
        }
    }

    /// Announces the message.
    pub fn message_start_event(&mut self) -> (frame: String)
        ensures
            frame@ == (StreamEvent::MessageStart {
                id: old(self)@.message_id,
                model: old(self)@.model,
            }).framed(),
            final(self)@ == (StreamView { started: true, ..old(self)@ }),
    {
        self.started = true;
        let mut usage = no_entries();
        put(&mut usage, "input_tokens", Json::Unsigned(0));
        put(&mut usage, "output_tokens", Json::Unsigned(0));
        let nothing: Vec<Json> = Vec::new();
        assert(json_views(nothing@) =~= Seq::empty());
        let mut message = no_entries();
        put(&mut message, "id", text(self.message_id.as_str()));
        put(&mut message, "type", text("message"));
        put(&mut message, "role", text("assistant"));
        put(&mut message, "content", crate::json::array_of(nothing));
        put(&mut message, "model", text(self.model.as_str()));
        put(&mut message, "stop_reason", Json::Null);
        put(&mut message, "stop_sequence", Json::Null);
        put(&mut message, "usage", Json::Object(usage));
        let mut data = no_entries();
        put(&mut data, "type", text("message_start"));
        put(&mut data, "message", Json::Object(message));
        sse_event("message_start", &Json::Object(data))
    }

    /// Opens a block, and returns its index.
    fn open_block(&mut self, kind: BlockKind, id: &str, name: &str, out: &mut Vec<String>) -> (index:
        usize)
        ensures
            final(self)@ == old(self)@.opened(kind, id@, name@).0,
            views(final(out)@) == views(old(out)@) + framed_all(
                old(self)@.opened(kind, id@, name@).1,
            ),
            index == old(self)@.next_index,
    {
        let index: usize = self.next_index;
        self.next_index = self.next_index.wrapping_add(1);
        self.current_block = Some((kind, index));
        let mut data = indexed("content_block_start", index);
        put(&mut data, "content_block", make_empty_block(kind, id, name));
        emit(
            out,
            "content_block_start",
            Json::Object(data),
            Ghost(StreamEvent::BlockStart { index, kind, id: id@, name: name@ }),
        );
        index
    }

    /// Closes the block that is open, if one is.
    fn close_current_block(&mut self, out: &mut Vec<String>)
        ensures
            final(self)@ == old(self)@.closed().0,
            views(final(out)@) == views(old(out)@) + framed_all(old(self)@.closed().1),
    {
        match self.current_block {
            Some((_, index)) => {
                self.current_block = None;
                let data = indexed("content_block_stop", index);
                emit(
                    out,
                    "content_block_stop",
                    Json::Object(data),
                    Ghost(StreamEvent::BlockStop { index }),
                );
            },
            None => {
                assert(views(out@) =~= views(out@) + framed_all(Seq::empty()));
            },
        }
    }

    /// Closes the block that is open, if one is, and opens another.
    fn reopen(&mut self, kind: BlockKind, id: &str, name: &str, out: &mut Vec<String>) -> (index:
        usize)
        ensures
            final(self)@ == old(self)@.reopened(kind, id@, name@).0,
            views(final(out)@) == views(old(out)@) + framed_all(
                old(self)@.reopened(kind, id@, name@).1,
            ),
            final(self)@.current == Some((kind, index)),
    {
        let ghost before = views(out@);
        let ghost stop = self@.closed().1;
        let ghost start = self@.closed().0.opened(kind, id@, name@).1;
        self.close_current_block(out);
        let index: usize = self.open_block(kind, id, name, out);
        proof {
            lemma_framed_concat(stop, start);
            assert(views(out@) =~= before + framed_all(stop + start));
        }
        index
    }

    /// Adds a text to a block of the given kind, unless it is empty.
    fn add_piece(
        &mut self,
        kind: BlockKind,
        id: &str,
        name: &str,
        s: &str,
        out: &mut Vec<String>,
    )
        ensures
            final(self)@ == old(self)@.added(kind, id@, name@, s@).0,
            views(final(out)@) == views(old(out)@) + framed_all(
                old(self)@.added(kind, id@, name@, s@).1,
            ),
    {
        let ghost before = views(out@);
        let ghost expected = self@.added(kind, id@, name@, s@);
        let ghost switch = self@.switched(kind, id@, name@);
        assert(before + framed_all(Seq::empty()) =~= before);
        if s.is_empty() {
            return;
        }
        let index: usize = match self.current_block {
            Some((open, index)) => if open == kind {
                index
            } else {
                self.reopen(kind, id, name, out)
            },
            None => self.reopen(kind, id, name, out),
        };
        assert(self@ == switch.0);
        assert(views(out@) =~= before + framed_all(switch.1));
        let mut data = indexed("content_block_delta", index);
        put(&mut data, "delta", make_piece(kind, s));
        let ghost event = StreamEvent::BlockDelta { index, kind, text: s@ };
        emit(out, "content_block_delta", Json::Object(data), Ghost(event));
        proof {
            lemma_framed_concat(switch.1, seq![event]);
            assert(switch.1 + seq![event] =~= switch.1.push(event));
            assert(views(out@) =~= before + framed_all(expected.1));
        }
    }

    /// Adds a thought or a text, and counts it.
    fn speak(&mut self, kind: BlockKind, s: &str, out: &mut Vec<String>)
        ensures
            final(self)@ == old(self)@.spoken(kind, s@).0,
            views(final(out)@) == views(old(out)@) + framed_all(old(self)@.spoken(kind, s@).1),
    {
        self.add_piece(kind, "", "", s, out);
        self.output_chars = self.output_chars.wrapping_add(byte_len(s));
    }

    /// What is known of a tool call, with what a piece of it brings.
    fn hear_call(&self, index: u64, piece: &Json) -> (call: ToolCall)
        ensures
            call@ == self@.known_call(index).heard(piece@),
    {
        let function: Option<&Json> = piece.get("function");
        let name = match function {
            Some(function) => function.get_str_or("name", ""),
            None => "".to_owned(),
        };
        let arguments = match function {
            Some(function) => function.get_str_or("arguments", ""),
            None => "".to_owned(),
        };
        let id = piece.get_str_or("id", "");
        match self.tool_calls.get(&index) {
            Some(known) => ToolCall {
                id: keep_first(known.id.as_str(), id.as_str()),
                name: keep_first(known.name.as_str(), name.as_str()),
                held: known.held.as_str().to_owned().concat(arguments.as_str()),
                started: known.started,
            },
            None => ToolCall {
                id: keep_first("", id.as_str()),
                name: keep_first("", name.as_str()),
                held: "".to_owned().concat(arguments.as_str()),
                started: false,
            },
        }
    }

    /// Notes what is known of a tool call.
    fn note_call(&mut self, index: u64, call: ToolCall)
        ensures
            final(self)@ == old(self)@.noting(index, call@),
    {
        let ghost before = self.tool_calls@;
        self.tool_calls.insert(index, call);
        assert(call_views(self.tool_calls@) =~= call_views(before).insert(index, call@));
        assert(self@ =~= old(self)@.noting(index, call@));
    }

    /// Takes in one piece of a tool call.
    fn call(&mut self, piece: &Json, out: &mut Vec<String>)
        ensures
            final(self)@ == old(self)@.called(piece@).0,
            views(final(out)@) == views(old(out)@) + framed_all(old(self)@.called(piece@).1),
    {
        let ghost before = views(out@);
        let ghost start = self@;
        assert(before + framed_all(Seq::empty()) =~= before);
        let index: u64 = match piece.get("index") {
            Some(value) => match value.as_u64() {
                Some(n) => n,
                None => 0,
            },
            None => 0,
        };
        let call = self.hear_call(index, piece);
        let ghost heard = call@;
        if call.name.as_str().is_empty() {
            self.note_call(index, call);
            return;
        }
        let kind = BlockKind::ToolUse(index);
        let noted = ToolCall {
            id: call.id.as_str().to_owned(),
            name: call.name.as_str().to_owned(),
            held: "".to_owned(),
            started: true,
        };
        self.note_call(index, noted);
        let ghost opening = start.announced(index, heard);
        if !call.started {
            self.reopen(kind, call.id.as_str(), call.name.as_str(), out);
        }
        assert(self@ == opening.0);
        assert(views(out@) == before + framed_all(opening.1));
        self.add_piece(
            kind,
            call.id.as_str(),
            call.name.as_str(),
            call.held.as_str(),
            out,
        );
        proof {
            let more = opening.0.added(kind, heard.id, heard.name, heard.held).1;
            lemma_framed_concat(opening.1, more);
            assert(views(out@) =~= before + framed_all(opening.1 + more));
        }
    }

    /// Takes in one delta of a streamed completion. Returns the events that it
    /// gives, in order.
    pub fn feed_delta(&mut self, delta: &Json) -> (out: Vec<String>)
        ensures
            final(self)@ == old(self)@.fed(delta@).0,
            views(out@) == framed_all(old(self)@.fed(delta@).1),
    {
        let mut out: Vec<String> = Vec::new();
        let ghost start = self@;
        let ghost thoughts = start.thought(delta@).1;
        assert(views(out@) =~= Seq::empty());
        let thought = delta.get_str_or("reasoning_content", "");
        self.speak(BlockKind::Thinking, thought.as_str(), &mut out);
        let ghost thinking = self@;
        let ghost texts = thinking.told(delta@).1;
        let said = delta.get_str_or("content", "");
        self.speak(BlockKind::Text, said.as_str(), &mut out);
        let ghost talking = self@;
        let ghost said = thoughts + texts;
        proof {
            lemma_framed_concat(thoughts, texts);
            assert(views(out@) =~= framed_all(said));
        }
        match delta.get_array("tool_calls") {
            Some(calls) => {
                let mut i: usize = 0;
                assert(views(out@) =~= framed_all(said) + framed_all(
                    talking.called_all(json_views(calls@).take(0)).1,
                ));
                while i < calls.len()
                    invariant
                        i <= calls@.len(),
                        self@ == talking.called_all(json_views(calls@).take(i as int)).0,
                        views(out@) == framed_all(said) + framed_all(
                            talking.called_all(json_views(calls@).take(i as int)).1,
                        ),
                    decreases calls@.len() - i,
                {
                    let ghost next = json_views(calls@).take(i + 1);
                    let ghost before = talking.called_all(json_views(calls@).take(i as int));
                    let ghost more = before.0.called(calls@[i as int]@).1;
                    assert(next.drop_last() =~= json_views(calls@).take(i as int));
                    assert(next.last() == calls@[i as int]@);
                    self.call(&calls[i], &mut out);
                    proof {
                        lemma_framed_concat(before.1, more);
                        assert(views(out@) =~= framed_all(said) + framed_all(before.1 + more));
                    }
                    i += 1;
                }
                assert(json_views(calls@).take(i as int) =~= json_views(calls@));
            },
            None => {
                assert(framed_all(said) =~= framed_all(said) + framed_all(Seq::empty()));
            },
        }
        proof {
            lemma_framed_concat(
                said,
                talking.called_all(StreamView::calls_of(delta@)).1,
            );
        }
        out
    }

    /// Closes whatever block is open, and the message. To be called once, at
    /// the end of the stream.
    pub fn finish(&mut self, finish_reason: Option<&str>) -> (out: Vec<String>)
        ensures
            final(self)@ == old(self)@.finished(str_view(finish_reason)).0,
            views(out@) == framed_all(old(self)@.finished(str_view(finish_reason)).1),
    {
        let mut out: Vec<String> = Vec::new();
        let ghost expected = self@.finished(str_view(finish_reason)).1;
        let ghost stop = self@.closed().1;
        assert(views(out@) =~= Seq::empty());
        self.close_current_block(&mut out);
        assert(views(out@) =~= framed_all(stop));
        let reason = map_stop_reason(finish_reason);
        let mut delta = no_entries();
        put(&mut delta, "stop_reason", text(reason));
        put(&mut delta, "stop_sequence", Json::Null);
        let output_tokens: u64 = crate::anthropic::estimate_from_sizes(self.output_chars, 0, 0);
        let mut usage = no_entries();
        put(&mut usage, "output_tokens", Json::Unsigned(output_tokens));
        let mut data = no_entries();
        put(&mut data, "type", text("message_delta"));
        put(&mut data, "delta", Json::Object(delta));
        put(&mut data, "usage", Json::Object(usage));
        let ghost end = StreamEvent::MessageDelta {
            stop_reason: reason@,
            output_tokens: output_tokens as nat,
        };
        emit(&mut out, "message_delta", Json::Object(data), Ghost(end));
        let mut last = no_entries();
        put(&mut last, "type", text("message_stop"));
        emit(&mut out, "message_stop", Json::Object(last), Ghost(StreamEvent::MessageStop));
        assert(views(out@) =~= framed_all(expected));
        out
    }
}

} // verus!
