//! Translation between the Anthropic Messages API and the OpenAI-compatible
//! chat-completions API: requests in one direction, complete responses in the
//! other.

use crate::json::{
    array_of, json_views, no_entries, object_view, put, text, text_view, Json, JsonView,
};
use crate::sse::str_view;
use crate::text::{char_len, join, joined, str_eq, views};
use crate::wire::{is_faithful, json_text, parse_text, parsed_text, to_text};
use vstd::prelude::*;

verus! {

/// An object with no fields.
pub open spec fn empty_object() -> JsonView {
    JsonView::Object(Map::empty())
}

/// What a reader finds in the elements of a list, in order, where it finds
/// anything.
pub open spec fn picked<A>(items: Seq<JsonView>, pick: spec_fn(JsonView) -> Option<A>) -> Seq<A>
    decreases items.len(),
{
    if items.len() == 0 {
        Seq::empty()
    } else {
        match pick(items.last()) {
            Some(found) => picked(items.drop_last(), pick).push(found),
            None => picked(items.drop_last(), pick),
        }
    }
}

/// Does a request ask for thinking?
pub open spec fn wants_thinking(body: JsonView) -> bool {
    match body.field("thinking"@) {
        Some(thinking) => thinking.field_text("type"@) == Some("enabled"@),
        None => false,
    }
}

/// Does a request ask for thinking? It says so in its top-level `thinking`
/// field; the same model and endpoint serve both kinds of request, with
/// different sampling parameters.
pub fn thinking_enabled(body: &Json) -> (b: bool)
    ensures
        b == wants_thinking(body@),
{
    match body.get("thinking") {
        Some(thinking) => match thinking.get_str("type") {
            Some(kind) => str_eq(kind, "enabled"),
            None => false,
        },
        None => false,
    }
}

/// The fields of a request with the sampling parameters set.
pub open spec fn with_sampling_params(
    fields: Map<Seq<char>, JsonView>,
    thinking: bool,
) -> Map<Seq<char>, JsonView> {
    if thinking {
        fields.insert("temperature"@, JsonView::Decimal("0.6"@)).insert(
            "top_p"@,
            JsonView::Decimal("0.95"@),
        ).insert("top_k"@, JsonView::Integer(20)).insert("min_p"@, JsonView::Integer(0)).insert(
            "presence_penalty"@,
            JsonView::Decimal("1.0"@),
        )
    } else {
        fields.insert("temperature"@, JsonView::Decimal("0.7"@)).insert(
            "top_p"@,
            JsonView::Decimal("0.8"@),
        ).insert("top_k"@, JsonView::Integer(20)).insert("min_p"@, JsonView::Integer(0)).insert(
            "presence_penalty"@,
            JsonView::Decimal("1.5"@),
        ).insert(
            "chat_template_kwargs"@,
            JsonView::Object(map!["enable_thinking"@ => JsonView::Bool(false)]),
        )
    }
}

/// Sets the sampling parameters, one set for "thinking on" and one for
/// "thinking off".
fn apply_sampling_params(fields: &mut Vec<(String, Json)>, thinking: bool)
    ensures
        object_view(final(fields)@) == with_sampling_params(object_view(old(fields)@), thinking),
{
    if thinking {
        put(fields, "temperature", Json::Decimal("0.6".to_owned()));
        put(fields, "top_p", Json::Decimal("0.95".to_owned()));
        put(fields, "top_k", Json::Unsigned(20));
        put(fields, "min_p", Json::Unsigned(0));
        put(fields, "presence_penalty", Json::Decimal("1.0".to_owned()));
    } else {
        let mut kwargs = no_entries();
        put(&mut kwargs, "enable_thinking", Json::Bool(false));
        put(fields, "temperature", Json::Decimal("0.7".to_owned()));
        put(fields, "top_p", Json::Decimal("0.8".to_owned()));
        put(fields, "top_k", Json::Unsigned(20));
        put(fields, "min_p", Json::Unsigned(0));
        put(fields, "presence_penalty", Json::Decimal("1.5".to_owned()));
        put(fields, "chat_template_kwargs", Json::Object(kwargs));
    }
}

/// A text, unless it is empty.
pub open spec fn unless_empty(s: Seq<char>) -> Option<Seq<char>> {
    if s.len() == 0 {
        None
    } else {
        Some(s)
    }
}

/// The reader of a block's `text` field.
pub open spec fn any_text() -> spec_fn(JsonView) -> Option<Seq<char>> {
    |block: JsonView| block.field_text("text"@)
}

/// The system prompt of a request, if it has one: a string, or the texts of a
/// list of blocks on lines of their own.
pub open spec fn system_prompt(body: JsonView) -> Option<Seq<char>> {
    match body.field("system"@) {
        Some(JsonView::Text(s)) => unless_empty(s),
        Some(JsonView::Array(blocks)) => unless_empty(joined(picked(blocks, any_text()), "\n"@)),
        _ => None,
    }
}

/// The model of an optional string.
pub open spec fn string_view(s: Option<String>) -> Option<Seq<char>> {
    match s {
        Some(s) => Some(s@),
        None => None,
    }
}

/// The system prompt of a request, if it has one.
fn system_text(body: &Json) -> (prompt: Option<String>)
    ensures
        string_view(prompt) == system_prompt(body@),
{
    let Some(system) = body.get("system") else {
        return None;
    };
    let found: String = match system.as_str() {
        Some(s) => s.to_owned(),
        None => match system.as_array() {
            Some(blocks) => {
                let mut parts: Vec<String> = Vec::new();
                let mut i: usize = 0;
                assert(views(parts@) =~= picked(json_views(blocks@).take(0), any_text()));
                while i < blocks.len()
                    invariant
                        i <= blocks@.len(),
                        views(parts@) == picked(json_views(blocks@).take(i as int), any_text()),
                    decreases blocks@.len() - i,
                {
                    let ghost next = json_views(blocks@).take(i + 1);
                    let ghost before = parts@;
                    assert(next.drop_last() =~= json_views(blocks@).take(i as int));
                    assert(next.last() == blocks@[i as int]@);
                    match blocks[i].get_str("text") {
                        Some(s) => {
                            parts.push(s.to_owned());
                            assert(views(parts@) =~= views(before).push(s@));
                        },
                        None => {},
                    }
                    i += 1;
                }
                assert(json_views(blocks@).take(i as int) =~= json_views(blocks@));
                join(&parts, "\n")
            },
            None => {
                return None;
            },
        },
    };
    if found.as_str().is_empty() {
        None
    } else {
        Some(found)
    }
}

/// The text of a text block.
pub open spec fn text_of_block(block: JsonView) -> Option<Seq<char>> {
    if block.field_text("type"@) == Some("text"@) {
        block.field_text("text"@)
    } else {
        None
    }
}

/// Is the block of the given type?
fn block_is(block: &Json, kind: &str) -> (b: bool)
    ensures
        b == (block@.field_text("type"@) == Some(kind@)),
{
    match block.get_str("type") {
        Some(found) => str_eq(found, kind),
        None => false,
    }
}

/// The text of a text block.
fn block_text(block: &Json) -> (s: Option<&str>)
    ensures
        str_view(s) == text_of_block(block@),
{
    if block_is(block, "text") {
        block.get_str("text")
    } else {
        None
    }
}

/// The texts of the text blocks of a list.
pub open spec fn block_texts(blocks: Seq<JsonView>) -> Seq<Seq<char>> {
    picked(blocks, |block: JsonView| text_of_block(block))
}

/// The texts of the text blocks of a list, on lines of their own.
fn joined_texts(blocks: &Vec<Json>) -> (s: String)
    ensures
        s@ == joined(block_texts(json_views(blocks@)), "\n"@),
{
    let mut parts: Vec<String> = Vec::new();
    let mut i: usize = 0;
    assert(views(parts@) =~= block_texts(json_views(blocks@).take(0)));
    while i < blocks.len()
        invariant
            i <= blocks@.len(),
            views(parts@) == block_texts(json_views(blocks@).take(i as int)),
        decreases blocks@.len() - i,
    {
        let ghost next = json_views(blocks@).take(i + 1);
        let ghost before = parts@;
        assert(next.drop_last() =~= json_views(blocks@).take(i as int));
        assert(next.last() == blocks@[i as int]@);
        match block_text(&blocks[i]) {
            Some(s) => {
                parts.push(s.to_owned());
                assert(views(parts@) =~= views(before).push(s@));
            },
            None => {},
        }
        i += 1;
    }
    assert(json_views(blocks@).take(i as int) =~= json_views(blocks@));
    join(&parts, "\n")
}

/// The content of a tool result as one text: a string as it is, a list of
/// blocks as the texts in it, anything else as JSON.
pub open spec fn flattened(content: JsonView) -> Seq<char> {
    match content {
        JsonView::Text(s) => s,
        JsonView::Array(blocks) => joined(block_texts(blocks), "\n"@),
        _ => json_text(content),
    }
}

/// Flattens the content of a tool result, which can itself be a string or a
/// list of blocks, to the single string that a `tool` message takes.
fn tool_result_text(content: &Json) -> (s: String)
    ensures
        s@ == flattened(content@),
{
    match content.as_str() {
        Some(s) => s.to_owned(),
        None => match content.as_array() {
            Some(blocks) => joined_texts(blocks),
            None => to_text(content),
        },
    }
}

/// The arguments that a tool call carries: the input of a `tool_use` block, or
/// an empty object.
pub open spec fn tool_input(block: JsonView) -> JsonView {
    match block.field("input"@) {
        Some(input) => input,
        None => empty_object(),
    }
}

/// A tool call as the OpenAI format has it, given its arguments as text.
pub open spec fn tool_call(block: JsonView, arguments: Seq<char>) -> JsonView {
    JsonView::Object(
        map![
            "id"@ => text_view(block.text_or("id"@, ""@)),
            "type"@ => text_view("function"@),
            "function"@ => JsonView::Object(
                map![
                    "name"@ => text_view(block.text_or("name"@, ""@)),
                    "arguments"@ => text_view(arguments),
                ],
            ),
        ],
    )
}

/// The tool call of a `tool_use` block.
pub open spec fn call_of_block(block: JsonView) -> Option<JsonView> {
    if block.field_text("type"@) == Some("tool_use"@) {
        Some(tool_call(block, json_text(tool_input(block))))
    } else {
        None
    }
}

/// The `tool` message of a `tool_result` block.
pub open spec fn result_of_block(block: JsonView) -> Option<JsonView> {
    if block.field_text("type"@) == Some("tool_result"@) {
        Some(
            JsonView::Object(
                map![
                    "role"@ => text_view("tool"@),
                    "tool_call_id"@ => text_view(block.text_or("tool_use_id"@, ""@)),
                    "content"@ => text_view(
                        match block.field("content"@) {
                            Some(content) => flattened(content),
                            None => Seq::empty(),
                        },
                    ),
                ],
            ),
        )
    } else {
        None
    }
}

/// The tool calls of a list of blocks.
pub open spec fn block_calls(blocks: Seq<JsonView>) -> Seq<JsonView> {
    picked(blocks, |block: JsonView| call_of_block(block))
}

/// The tool results of a list of blocks, as messages.
pub open spec fn block_results(blocks: Seq<JsonView>) -> Seq<JsonView> {
    picked(blocks, |block: JsonView| result_of_block(block))
}

/// A message with a role and a text.
pub open spec fn text_message(role: Seq<char>, content: Seq<char>) -> JsonView {
    JsonView::Object(map!["role"@ => text_view(role), "content"@ => text_view(content)])
}

/// What the assistant said and which tools it called; nothing, if neither.
pub open spec fn assistant_messages(said: Seq<char>, calls: Seq<JsonView>) -> Seq<JsonView> {
    if said.len() == 0 && calls.len() == 0 {
        Seq::empty()
    } else {
        let spoken = map!["role"@ => text_view("assistant"@)].insert(
            "content"@,
            if said.len() == 0 {
                JsonView::Null
            } else {
                text_view(said)
            },
        );
        seq![
            JsonView::Object(
                if calls.len() == 0 {
                    spoken
                } else {
                    spoken.insert("tool_calls"@, JsonView::Array(calls))
                },
            ),
        ]
    }
}

/// A text message, unless the text is empty.
pub open spec fn spoken_messages(role: Seq<char>, said: Seq<char>) -> Seq<JsonView> {
    if said.len() == 0 {
        Seq::empty()
    } else {
        seq![text_message(role, said)]
    }
}

/// The messages that one message becomes. Tool results become `tool` messages
/// of their own, which answer the preceding tool calls; any text that comes
/// with them becomes a message behind them.
pub open spec fn converted(role: Seq<char>, content: JsonView) -> Seq<JsonView> {
    match content {
        JsonView::Text(s) => spoken_messages(role, s),
        JsonView::Array(blocks) => {
            let said = joined(block_texts(blocks), "\n"@);
            if role == "assistant"@ {
                assistant_messages(said, block_calls(blocks))
            } else if role == "user"@ {
                block_results(blocks) + spoken_messages("user"@, said)
            } else {
                spoken_messages("user"@, said)
            }
        },
        _ => Seq::empty(),
    }
}

/// Builds a tool call from a `tool_use` block and its arguments as text.
pub fn make_tool_call(block: &Json, arguments: &str) -> (call: Json)
    ensures
        call@ == tool_call(block@, arguments@),
{
    let mut function = no_entries();
    put(&mut function, "name", Json::Text(block.get_str_or("name", "")));
    put(&mut function, "arguments", text(arguments));
    let mut call = no_entries();
    put(&mut call, "id", Json::Text(block.get_str_or("id", "")));
    put(&mut call, "type", text("function"));
    put(&mut call, "function", Json::Object(function));
    Json::Object(call)
}

/// The input of a `tool_use` block, rendered as text. Parsing that text gives the
/// input back, where it can be read back at all.
pub fn input_text(block: &Json) -> (s: String)
    ensures
        s@ == json_text(tool_input(block@)),
        is_faithful(tool_input(block@)) ==> parsed_text(s@) == Some(tool_input(block@)),
{
    match block.get("input") {
        Some(input) => to_text(input),
        None => {
            let nothing = Json::Object(no_entries());
            to_text(&nothing)
        },
    }
}

/// Builds the `tool` message of a `tool_result` block.
fn make_tool_message(block: &Json) -> (message: Json)
    requires
        block@.field_text("type"@) == Some("tool_result"@),
    ensures
        result_of_block(block@) == Some(message@),
{
    let content = match block.get("content") {
        Some(content) => tool_result_text(content),
        None => String::new(),
    };
    let mut message = no_entries();
    put(&mut message, "role", text("tool"));
    put(&mut message, "tool_call_id", Json::Text(block.get_str_or("tool_use_id", "")));
    put(&mut message, "content", Json::Text(content));
    Json::Object(message)
}

/// Builds a message with a role and a text.
fn make_text_message(role: &str, content: &str) -> (message: Json)
    ensures
        message@ == text_message(role@, content@),
{
    let mut message = no_entries();
    put(&mut message, "role", text(role));
    put(&mut message, "content", text(content));
    Json::Object(message)
}

/// Collects the tool calls of a list of blocks.
fn collect_calls(blocks: &Vec<Json>) -> (calls: Vec<Json>)
    ensures
        json_views(calls@) == block_calls(json_views(blocks@)),
{
    let mut calls: Vec<Json> = Vec::new();
    let mut i: usize = 0;
    assert(json_views(calls@) =~= block_calls(json_views(blocks@).take(0)));
    while i < blocks.len()
        invariant
            i <= blocks@.len(),
            json_views(calls@) == block_calls(json_views(blocks@).take(i as int)),
        decreases blocks@.len() - i,
    {
        let ghost next = json_views(blocks@).take(i + 1);
        let ghost before = calls@;
        assert(next.drop_last() =~= json_views(blocks@).take(i as int));
        assert(next.last() == blocks@[i as int]@);
        if block_is(&blocks[i], "tool_use") {
            let arguments = input_text(&blocks[i]);
            let call = make_tool_call(&blocks[i], arguments.as_str());
            calls.push(call);
            assert(json_views(calls@) =~= json_views(before).push(call@));
        }
        i += 1;
    }
    assert(json_views(blocks@).take(i as int) =~= json_views(blocks@));
    calls
}

/// Appends the `tool` messages of a list of blocks.
fn push_results(blocks: &Vec<Json>, out: &mut Vec<Json>)
    ensures
        json_views(final(out)@) == json_views(old(out)@) + block_results(json_views(blocks@)),
{
    let ghost start = json_views(out@);
    let mut i: usize = 0;
    assert(json_views(out@) =~= start + block_results(json_views(blocks@).take(0)));
    while i < blocks.len()
        invariant
            i <= blocks@.len(),
            json_views(out@) == start + block_results(json_views(blocks@).take(i as int)),
        decreases blocks@.len() - i,
    {
        let ghost next = json_views(blocks@).take(i + 1);
        let ghost before = out@;
        assert(next.drop_last() =~= json_views(blocks@).take(i as int));
        assert(next.last() == blocks@[i as int]@);
        if block_is(&blocks[i], "tool_result") {
            let message = make_tool_message(&blocks[i]);
            out.push(message);
            assert(json_views(out@) =~= json_views(before).push(message@));
            assert(json_views(out@) =~= start + block_results(next));
        }
        i += 1;
    }
    assert(json_views(blocks@).take(i as int) =~= json_views(blocks@));
}

/// Appends one message.
fn push_message(out: &mut Vec<Json>, message: Json)
    ensures
        json_views(final(out)@) == json_views(old(out)@) + seq![message@],
{
    let ghost before = out@;
    out.push(message);
    assert(json_views(out@) =~= json_views(before) + seq![message@]);
}

/// Appends what one message becomes to a list of messages.
pub fn convert_message(role: &str, content: &Json, out: &mut Vec<Json>)
    ensures
        json_views(final(out)@) == json_views(old(out)@) + converted(role@, content@),
{
    let ghost start = json_views(out@);
    assert(start + Seq::empty() =~= start);
    match content.as_str() {
        Some(s) => {
            if !s.is_empty() {
                push_message(out, make_text_message(role, s));
            }
            return;
        },
        None => {},
    }
    let Some(blocks) = content.as_array() else {
        return;
    };
    let said = joined_texts(blocks);
    if str_eq(role, "assistant") {
        let calls = collect_calls(blocks);
        assert(json_views(calls@).len() == calls@.len());
        let silent = said.as_str().is_empty();
        if !silent || !calls.is_empty() {
            let mut message = no_entries();
            put(&mut message, "role", text("assistant"));
            put(
                &mut message,
                "content",
                if silent {
                    Json::Null
                } else {
                    Json::Text(said)
                },
            );
            if !calls.is_empty() {
                put(&mut message, "tool_calls", array_of(calls));
            }
            push_message(out, Json::Object(message));
        }
    } else {
        if str_eq(role, "user") {
            push_results(blocks, out);
        }
        let ghost middle = json_views(out@);
        assert(middle + Seq::empty() =~= middle);
        if !said.as_str().is_empty() {
            push_message(out, make_text_message("user", said.as_str()));
        }
        assert(json_views(out@) =~= start + converted(role@, content@));
    }
}

/// The schema of a tool that gives none.
pub open spec fn default_schema() -> JsonView {
    JsonView::Object(map!["type"@ => text_view("object"@), "properties"@ => empty_object()])
}

/// A tool as the OpenAI format has it.
pub open spec fn converted_tool(tool: JsonView) -> JsonView {
    JsonView::Object(
        map![
            "type"@ => text_view("function"@),
            "function"@ => JsonView::Object(
                map![
                    "name"@ => text_view(tool.text_or("name"@, ""@)),
                    "description"@ => text_view(tool.text_or("description"@, ""@)),
                    "parameters"@ => match tool.field("input_schema"@) {
                        Some(schema) => schema,
                        None => default_schema(),
                    },
                ],
            ),
        ],
    )
}

/// The tools of a request, if it offers any.
pub open spec fn converted_tools(body: JsonView) -> Option<JsonView> {
    match body.field_array("tools"@) {
        Some(tools) => if tools.len() == 0 {
            None
        } else {
            Some(JsonView::Array(tools.map_values(|tool: JsonView| converted_tool(tool))))
        },
        None => None,
    }
}

/// The model of an optional JSON value.
pub open spec fn json_option(json: Option<Json>) -> Option<JsonView> {
    match json {
        Some(json) => Some(json@),
        None => None,
    }
}

/// Converts one tool.
fn convert_tool(tool: &Json) -> (json: Json)
    ensures
        json@ == converted_tool(tool@),
{
    let schema = match tool.get("input_schema") {
        Some(schema) => schema.duplicate(),
        None => {
            let mut schema = no_entries();
            put(&mut schema, "type", text("object"));
            put(&mut schema, "properties", Json::Object(no_entries()));
            Json::Object(schema)
        },
    };
    let mut function = no_entries();
    put(&mut function, "name", Json::Text(tool.get_str_or("name", "")));
    put(&mut function, "description", Json::Text(tool.get_str_or("description", "")));
    put(&mut function, "parameters", schema);
    let mut entry = no_entries();
    put(&mut entry, "type", text("function"));
    put(&mut entry, "function", Json::Object(function));
    Json::Object(entry)
}

/// Converts the tools of a request, if it offers any.
fn convert_tools(body: &Json) -> (json: Option<Json>)
    ensures
        json_option(json) == converted_tools(body@),
{
    let Some(tools) = body.get_array("tools") else {
        return None;
    };
    assert(json_views(tools@).len() == tools@.len());
    if tools.is_empty() {
        return None;
    }
    let mut list: Vec<Json> = Vec::new();
    let mut i: usize = 0;
    while i < tools.len()
        invariant
            i <= tools@.len(),
            list@.len() == i,
            forall|j: int| 0 <= j < i ==> (#[trigger] list@[j])@ == converted_tool(tools@[j]@),
        decreases tools@.len() - i,
    {
        list.push(convert_tool(&tools[i]));
        i += 1;
    }
    assert(json_views(list@) =~= json_views(tools@).map_values(
        |tool: JsonView| converted_tool(tool),
    ));
    Some(array_of(list))
}

/// The tool choice of a request, if it makes one that has a counterpart.
pub open spec fn converted_tool_choice(body: JsonView) -> Option<JsonView> {
    match body.field("tool_choice"@) {
        Some(choice) => {
            let kind = choice.field_text("type"@);
            if kind == Some("auto"@) {
                Some(text_view("auto"@))
            } else if kind == Some("none"@) {
                Some(text_view("none"@))
            } else if kind == Some("any"@) {
                Some(text_view("required"@))
            } else if kind == Some("tool"@) {
                Some(
                    JsonView::Object(
                        map![
                            "type"@ => text_view("function"@),
                            "function"@ => JsonView::Object(
                                map!["name"@ => text_view(choice.text_or("name"@, ""@))],
                            ),
                        ],
                    ),
                )
            } else {
                None
            }
        },
        None => None,
    }
}

/// Converts the tool choice of a request, if it makes one that has a
/// counterpart.
fn convert_tool_choice(body: &Json) -> (json: Option<Json>)
    ensures
        json_option(json) == converted_tool_choice(body@),
{
    let Some(choice) = body.get("tool_choice") else {
        return None;
    };
    if block_is(choice, "auto") {
        Some(text("auto"))
    } else if block_is(choice, "none") {
        Some(text("none"))
    } else if block_is(choice, "any") {
        Some(text("required"))
    } else if block_is(choice, "tool") {
        let mut function = no_entries();
        put(&mut function, "name", Json::Text(choice.get_str_or("name", "")));
        let mut json = no_entries();
        put(&mut json, "type", text("function"));
        put(&mut json, "function", Json::Object(function));
        Some(Json::Object(json))
    } else {
        None
    }
}

/// What one entry of a request's message list becomes; one without content
/// becomes nothing.
pub open spec fn converted_entry(message: JsonView) -> Seq<JsonView> {
    match message.field("content"@) {
        Some(content) => converted(message.text_or("role"@, "user"@), content),
        None => Seq::empty(),
    }
}

/// What a list of messages becomes, in order.
pub open spec fn converted_messages(messages: Seq<JsonView>) -> Seq<JsonView>
    decreases messages.len(),
{
    if messages.len() == 0 {
        Seq::empty()
    } else {
        converted_messages(messages.drop_last()) + converted_entry(messages.last())
    }
}

/// The system prompt of a request as a message, if it has one.
pub open spec fn system_messages(body: JsonView) -> Seq<JsonView> {
    match system_prompt(body) {
        Some(prompt) => seq![text_message("system"@, prompt)],
        None => Seq::empty(),
    }
}

/// The messages of a request: the system prompt, then the conversation.
pub open spec fn request_messages(body: JsonView) -> Seq<JsonView> {
    match body.field_array("messages"@) {
        Some(messages) => system_messages(body) + converted_messages(messages),
        None => system_messages(body),
    }
}

/// A map with one more field, if there is a value for it.
pub open spec fn with_field(
    fields: Map<Seq<char>, JsonView>,
    key: Seq<char>,
    value: Option<JsonView>,
) -> Map<Seq<char>, JsonView> {
    match value {
        Some(value) => fields.insert(key, value),
        None => fields,
    }
}

/// The chat-completions request that a Messages request stands for.
pub open spec fn openai_request(body: JsonView, model_id: Seq<char>) -> JsonView {
    let base = map![
        "model"@ => text_view(model_id),
        "messages"@ => JsonView::Array(request_messages(body)),
        "stream"@ => JsonView::Bool(body.flag("stream"@)),
    ];
    let limited = with_field(base, "max_tokens"@, body.field("max_tokens"@));
    let equipped = with_field(limited, "tools"@, converted_tools(body));
    let choosing = with_field(equipped, "tool_choice"@, converted_tool_choice(body));
    JsonView::Object(with_sampling_params(choosing, wants_thinking(body)))
}

/// Translates a complete Messages API request body into the chat-completions
/// body that the server takes.
pub fn anthropic_to_openai_request(body: &Json, model_id: &str) -> (request: Json)
    ensures
        request@ == openai_request(body@, model_id@),
{
    let mut messages: Vec<Json> = Vec::new();
    assert(json_views(messages@) =~= Seq::empty());
    match system_text(body) {
        Some(prompt) => {
            push_message(&mut messages, make_text_message("system", prompt.as_str()));
        },
        None => {},
    }
    assert(json_views(messages@) =~= system_messages(body@));
    match body.get_array("messages") {
        Some(list) => {
            let mut i: usize = 0;
            assert(system_messages(body@) + converted_messages(json_views(list@).take(0))
                =~= system_messages(body@));
            while i < list.len()
                invariant
                    i <= list@.len(),
                    json_views(messages@) == system_messages(body@) + converted_messages(
                        json_views(list@).take(i as int),
                    ),
                decreases list@.len() - i,
            {
                let ghost next = json_views(list@).take(i + 1);
                let ghost before = json_views(messages@);
                assert(next.drop_last() =~= json_views(list@).take(i as int));
                assert(next.last() == list@[i as int]@);
                match list[i].get("content") {
                    Some(content) => {
                        let role = list[i].get_str_or("role", "user");
                        convert_message(role.as_str(), content, &mut messages);
                    },
                    None => {},
                }
                assert(json_views(messages@) =~= before + converted_entry(list@[i as int]@));
                assert(json_views(messages@) =~= system_messages(body@) + converted_messages(next));
                i += 1;
            }
            assert(json_views(list@).take(i as int) =~= json_views(list@));
        },
        None => {},
    }
    let mut fields = no_entries();
    put(&mut fields, "model", text(model_id));
    put(&mut fields, "messages", array_of(messages));
    put(&mut fields, "stream", Json::Bool(body.get_flag("stream")));
    match body.get("max_tokens") {
        Some(limit) => {
            put(&mut fields, "max_tokens", limit.duplicate());
        },
        None => {},
    }
    match convert_tools(body) {
        Some(tools) => {
            put(&mut fields, "tools", tools);
        },
        None => {},
    }
    match convert_tool_choice(body) {
        Some(choice) => {
            put(&mut fields, "tool_choice", choice);
        },
        None => {},
    }
    apply_sampling_params(&mut fields, thinking_enabled(body));
    Json::Object(fields)
}

/// A quarter of a length, rounded up: a rough count of tokens.
pub open spec fn quarter_up(length: nat) -> nat {
    (length + 3) / 4
}

/// The length of the text of an optional value, in characters.
pub open spec fn text_size(value: Option<JsonView>) -> nat {
    match value {
        Some(value) => json_text(value).len(),
        None => 0,
    }
}

/// The value under `key`, if it is an array.
pub open spec fn field_if_array(body: JsonView, key: Seq<char>) -> Option<JsonView> {
    match body.field(key) {
        Some(JsonView::Array(items)) => Some(JsonView::Array(items)),
        _ => None,
    }
}

/// How many characters a request carries: those of its system prompt, its
/// messages and its tools.
pub open spec fn request_size(body: JsonView) -> nat {
    (match system_prompt(body) {
        Some(prompt) => prompt.len(),
        None => 0,
    }) + text_size(field_if_array(body, "messages"@)) + text_size(body.field("tools"@))
}

/// A quarter of three lengths together, rounded up.
pub fn estimate_from_sizes(system: usize, messages: usize, tools: usize) -> (n: u64)
    ensures
        n == quarter_up((system + messages + tools) as nat),
{
    let total: u128 = system as u128 + messages as u128 + tools as u128;
    ((total + 3) / 4) as u64
}

/// A very rough estimate of the tokens of a request, a quarter of its characters.
/// It serves for bookkeeping only.
pub fn estimate_input_tokens(body: &Json) -> (n: u64)
    ensures
        n == quarter_up(request_size(body@)),
{
    let system: usize = match system_text(body) {
        Some(prompt) => char_len(prompt.as_str()),
        None => 0,
    };
    let messages: usize = match body.get("messages") {
        Some(list) => match list.as_array() {
            Some(_) => char_len(to_text(list).as_str()),
            None => 0,
        },
        None => 0,
    };
    let tools: usize = match body.get("tools") {
        Some(tools) => char_len(to_text(tools).as_str()),
        None => 0,
    };
    estimate_from_sizes(system, messages, tools)
}

/// Why a message ended, in the terms of the Messages API.
pub open spec fn stop_reason(finish_reason: Option<Seq<char>>) -> Seq<char> {
    if finish_reason == Some("tool_calls"@) {
        "tool_use"@
    } else if finish_reason == Some("length"@) {
        "max_tokens"@
    } else {
        "end_turn"@
    }
}

/// Why a message ended, in the terms of the Messages API.
pub fn map_stop_reason(finish_reason: Option<&str>) -> (reason: &'static str)
    ensures
        reason@ == stop_reason(str_view(finish_reason)),
{
    match finish_reason {
        Some(reason) => if str_eq(reason, "tool_calls") {
            "tool_use"
        } else if str_eq(reason, "length") {
            "max_tokens"
        } else {
            "end_turn"
        },
        None => "end_turn",
    }
}

/// A block with a type and one text field, unless the text is absent or empty.
pub open spec fn text_blocks(kind: Seq<char>, key: Seq<char>, s: Option<Seq<char>>) -> Seq<
    JsonView,
> {
    match s {
        Some(s) => if s.len() == 0 {
            Seq::empty()
        } else {
            seq![JsonView::Object(map!["type"@ => text_view(kind), key => text_view(s)])]
        },
        None => Seq::empty(),
    }
}

/// The arguments of a tool call as text; absent ones are those of an empty
/// object.
pub open spec fn arguments_text(call: JsonView) -> Seq<char> {
    call.at("function"@).text_or("arguments"@, "{}"@)
}

/// A `tool_use` block for a tool call, given its arguments as JSON; arguments
/// that are no JSON count as an empty object.
pub open spec fn tool_use_block(call: JsonView, arguments: Option<JsonView>) -> JsonView {
    JsonView::Object(
        map![
            "type"@ => text_view("tool_use"@),
            "id"@ => text_view(call.text_or("id"@, ""@)),
            "name"@ => text_view(call.at("function"@).text_or("name"@, ""@)),
            "input"@ => match arguments {
                Some(input) => input,
                None => empty_object(),
            },
        ],
    )
}

/// The `tool_use` blocks for a list of tool calls.
pub open spec fn tool_use_blocks(calls: Option<Seq<JsonView>>) -> Seq<JsonView> {
    match calls {
        Some(calls) => calls.map_values(
            |call: JsonView| tool_use_block(call, parsed_text(arguments_text(call))),
        ),
        None => Seq::empty(),
    }
}

/// The content blocks of a message: what was thought, what was said, and which
/// tools were called.
pub open spec fn content_blocks(message: JsonView) -> Seq<JsonView> {
    text_blocks("thinking"@, "thinking"@, message.field_text("reasoning_content"@)) + text_blocks(
        "text"@,
        "text"@,
        message.field_text("content"@),
    ) + tool_use_blocks(message.field_array("tool_calls"@))
}

/// A counter of a response's usage, zero where absent.
pub open spec fn usage_count(resp: JsonView, key: Seq<char>) -> int {
    match resp.at("usage"@).field(key) {
        Some(value) => match value.unsigned() {
            Some(n) => n as int,
            None => 0,
        },
        None => 0,
    }
}

/// The Messages API message that a complete chat completion stands for.
pub open spec fn anthropic_message(resp: JsonView, model_id: Seq<char>) -> JsonView {
    let choice = resp.at("choices"@).nth(0);
    JsonView::Object(
        map![
            "id"@ => text_view(resp.text_or("id"@, "msg_local"@)),
            "type"@ => text_view("message"@),
            "role"@ => text_view("assistant"@),
            "model"@ => text_view(model_id),
            "content"@ => JsonView::Array(content_blocks(choice.at("message"@))),
            "stop_reason"@ => text_view(stop_reason(choice.field_text("finish_reason"@))),
            "stop_sequence"@ => JsonView::Null,
            "usage"@ => JsonView::Object(
                map![
                    "input_tokens"@ => JsonView::Integer(usage_count(resp, "prompt_tokens"@)),
                    "output_tokens"@ => JsonView::Integer(usage_count(resp, "completion_tokens"@)),
                ],
            ),
        ],
    )
}

/// Appends a block with a type and one text field, unless the text is absent or
/// empty.
fn push_text_block(kind: &str, key: &str, s: Option<&str>, out: &mut Vec<Json>)
    ensures
        json_views(final(out)@) == json_views(old(out)@) + text_blocks(kind@, key@, str_view(s)),
{
    let ghost before = json_views(out@);
    assert(before + Seq::empty() =~= before);
    match s {
        Some(s) => if !s.is_empty() {
            let mut block = no_entries();
            put(&mut block, "type", text(kind));
            put(&mut block, key, text(s));
            push_message(out, Json::Object(block));
        },
        None => {},
    }
}

/// Builds a `tool_use` block for a tool call, given its arguments as JSON.
pub fn make_tool_use_block(call: &Json, arguments: Option<Json>) -> (block: Json)
    ensures
        block@ == tool_use_block(call@, json_option(arguments)),
{
    let name = match call.get("function") {
        Some(function) => function.get_str_or("name", ""),
        None => "".to_owned(),
    };
    let input = match arguments {
        Some(input) => input,
        None => Json::Object(no_entries()),
    };
    let mut block = no_entries();
    put(&mut block, "type", text("tool_use"));
    put(&mut block, "id", Json::Text(call.get_str_or("id", "")));
    put(&mut block, "name", Json::Text(name));
    put(&mut block, "input", input);
    Json::Object(block)
}

/// Appends the `tool_use` blocks of a message's tool calls.
fn push_tool_use_blocks(calls: &Vec<Json>, out: &mut Vec<Json>)
    ensures
        json_views(final(out)@) == json_views(old(out)@) + tool_use_blocks(
            Some(json_views(calls@)),
        ),
{
    let ghost start = json_views(out@);
    let ghost all = tool_use_blocks(Some(json_views(calls@)));
    let mut i: usize = 0;
    assert(json_views(out@) =~= start + all.take(0));
    while i < calls.len()
        invariant
            i <= calls@.len(),
            all == tool_use_blocks(Some(json_views(calls@))),
            json_views(out@) == start + all.take(i as int),
        decreases calls@.len() - i,
    {
        let arguments = match calls[i].get("function") {
            Some(function) => function.get_str_or("arguments", "{}"),
            None => "{}".to_owned(),
        };
        let block = make_tool_use_block(&calls[i], parse_text(arguments.as_str()));
        push_message(out, block);
        assert(all[i as int] == block@);
        assert(json_views(out@) =~= start + all.take(i + 1));
        i += 1;
    }
    assert(all.take(i as int) =~= all);
}

/// Reads a counter of a response's usage.
fn read_usage(resp: &Json, key: &str) -> (n: u64)
    ensures
        n == usage_count(resp@, key@),
{
    match resp.get("usage") {
        Some(usage) => match usage.get(key) {
            Some(value) => match value.as_u64() {
                Some(n) => n,
                None => 0,
            },
            None => 0,
        },
        None => 0,
    }
}

/// Translates a complete chat-completion response into a Messages API message.
pub fn openai_response_to_anthropic(resp: &Json, model_id: &str) -> (message: Json)
    ensures
        message@ == anthropic_message(resp@, model_id@),
{
    let choice: Option<&Json> = match resp.get("choices") {
        Some(choices) => choices.get_index(0),
        None => None,
    };
    let ghost choice_view = resp@.at("choices"@).nth(0);
    let mut content: Vec<Json> = Vec::new();
    let mut finish_reason: Option<&str> = None;
    assert(json_views(content@) =~= Seq::empty());
    match choice {
        Some(choice) => {
            finish_reason = choice.get_str("finish_reason");
            match choice.get("message") {
                Some(message) => {
                    push_text_block(
                        "thinking",
                        "thinking",
                        message.get_str("reasoning_content"),
                        &mut content,
                    );
                    push_text_block("text", "text", message.get_str("content"), &mut content);
                    match message.get_array("tool_calls") {
                        Some(calls) => {
                            push_tool_use_blocks(calls, &mut content);
                        },
                        None => {},
                    }
                },
                None => {},
            }
        },
        None => {},
    }
    assert(json_views(content@) =~= content_blocks(choice_view.at("message"@)));
    let mut usage = no_entries();
    put(&mut usage, "input_tokens", Json::Unsigned(read_usage(resp, "prompt_tokens")));
    put(&mut usage, "output_tokens", Json::Unsigned(read_usage(resp, "completion_tokens")));
    let mut message = no_entries();
    put(&mut message, "id", Json::Text(resp.get_str_or("id", "msg_local")));
    put(&mut message, "type", text("message"));
    put(&mut message, "role", text("assistant"));
    put(&mut message, "model", text(model_id));
    put(&mut message, "content", array_of(content));
    put(&mut message, "stop_reason", text(map_stop_reason(finish_reason)));
    put(&mut message, "stop_sequence", Json::Null);
    put(&mut message, "usage", Json::Object(usage));
    Json::Object(message)
}

/// A tool call that goes out to the server and comes back keeps its id, its name
/// and its input, as long as parsing gives back the input that was rendered.
pub proof fn law_tool_calls_survive_the_round_trip(block: JsonView)
    requires
        parsed_text(json_text(tool_input(block))) == Some(tool_input(block)),
    ensures
        ({
            let call = tool_call(block, json_text(tool_input(block)));
            let back = tool_use_block(call, parsed_text(arguments_text(call)));
            &&& back.field_text("type"@) == Some("tool_use"@)
            &&& back.field_text("id"@) == Some(block.text_or("id"@, ""@))
            &&& back.field_text("name"@) == Some(block.text_or("name"@, ""@))
            &&& back.field("input"@) == Some(tool_input(block))
        }),
{
    reveal_strlit("id");
    reveal_strlit("type");
    reveal_strlit("function");
    reveal_strlit("name");
    reveal_strlit("arguments");
    reveal_strlit("input");
    assert("type"@[0] != "name"@[0]);
    assert("id"@.len() == 2 && "type"@.len() == 4 && "name"@.len() == 4 && "input"@.len() == 5);
    assert("function"@.len() == 8 && "arguments"@.len() == 9);
    assert("id"@ != "type"@ && "id"@ != "function"@ && "id"@ != "name"@ && "id"@ != "input"@);
    assert("type"@ != "function"@ && "type"@ != "name"@ && "type"@ != "input"@);
    assert("name"@ != "arguments"@ && "name"@ != "input"@);
    let call = tool_call(block, json_text(tool_input(block)));
    assert(call.at("function"@).field_text("arguments"@) == Some(json_text(tool_input(block))));
    assert(call.field_text("id"@) == Some(block.text_or("id"@, ""@)));
    assert(call.at("function"@).field_text("name"@) == Some(block.text_or("name"@, ""@)));
}

/// The keys of a request are all different.
pub proof fn lemma_request_keys_differ()
    ensures
        "model"@ != "tools"@,
        "model"@ != "top_p"@,
        "model"@ != "top_k"@,
        "model"@ != "min_p"@,
        "tools"@ != "top_p"@,
        "tools"@ != "top_k"@,
        "tools"@ != "min_p"@,
        "top_p"@ != "top_k"@,
        "top_p"@ != "min_p"@,
        "top_k"@ != "min_p"@,
        "tool_choice"@ != "temperature"@,
        "model"@.len() == 5,
        "tools"@.len() == 5,
        "top_p"@.len() == 5,
        "top_k"@.len() == 5,
        "min_p"@.len() == 5,
        "stream"@.len() == 6,
        "messages"@.len() == 8,
        "max_tokens"@.len() == 10,
        "tool_choice"@.len() == 11,
        "temperature"@.len() == 11,
        "presence_penalty"@.len() == 16,
        "chat_template_kwargs"@.len() == 20,
{
    reveal_strlit("model");
    reveal_strlit("tools");
    reveal_strlit("top_p");
    reveal_strlit("top_k");
    reveal_strlit("min_p");
    reveal_strlit("stream");
    reveal_strlit("messages");
    reveal_strlit("max_tokens");
    reveal_strlit("tool_choice");
    reveal_strlit("temperature");
    reveal_strlit("presence_penalty");
    reveal_strlit("chat_template_kwargs");
    assert("model"@[0] == 'm' && "model"@[1] == 'o' && "min_p"@[0] == 'm' && "min_p"@[1] == 'i');
    assert("tools"@[0] == 't' && "top_p"@[0] == 't' && "top_k"@[0] == 't');
    assert("tools"@[2] == 'o' && "top_p"@[2] == 'p' && "top_k"@[2] == 'p');
    assert("top_p"@[4] == 'p' && "top_k"@[4] == 'k');
    assert("tool_choice"@[1] == 'o' && "temperature"@[1] == 'e');
}

/// A translated request names the given model, carries the whole conversation,
/// streams if and only if it was asked to, keeps the limit on its length, and
/// offers the tools and the choice of them that were asked for, whatever sampling
/// parameters go with it.
pub proof fn law_request_keeps_what_was_asked(body: JsonView, model_id: Seq<char>)
    ensures
        ({
            let request = openai_request(body, model_id);
            &&& request.field("model"@) == Some(text_view(model_id))
            &&& request.field_array("messages"@) == Some(request_messages(body))
            &&& request.flag("stream"@) == body.flag("stream"@)
            &&& request.field("stream"@) == Some(JsonView::Bool(body.flag("stream"@)))
            &&& request.field("max_tokens"@) == body.field("max_tokens"@)
            &&& request.field("tools"@) == converted_tools(body)
            &&& request.field("tool_choice"@) == converted_tool_choice(body)
        }),
{
    lemma_request_keys_differ();
    let base = map![
        "model"@ => text_view(model_id),
        "messages"@ => JsonView::Array(request_messages(body)),
        "stream"@ => JsonView::Bool(body.flag("stream"@)),
    ];
    let limited = with_field(base, "max_tokens"@, body.field("max_tokens"@));
    let equipped = with_field(limited, "tools"@, converted_tools(body));
    let choosing = with_field(equipped, "tool_choice"@, converted_tool_choice(body));
    assert(!base.contains_key("max_tokens"@));
    assert(!limited.contains_key("tools"@));
    assert(!equipped.contains_key("tool_choice"@));
    let all = with_sampling_params(choosing, wants_thinking(body));
    assert(all.contains_key("model"@) && all["model"@] == base["model"@]);
    assert(all.contains_key("messages"@) && all["messages"@] == base["messages"@]);
    assert(all.contains_key("stream"@) && all["stream"@] == base["stream"@]);
    assert(all.contains_key("max_tokens"@) == limited.contains_key("max_tokens"@));
    assert(all.contains_key("tools"@) == equipped.contains_key("tools"@));
    assert(all.contains_key("tool_choice"@) == choosing.contains_key("tool_choice"@));
}

/// A request thinks exactly when it was asked to: only where it was not is the
/// server told to leave thinking off.
pub proof fn law_thinking_is_left_off_unless_asked_for(body: JsonView, model_id: Seq<char>)
    ensures
        openai_request(body, model_id).field("chat_template_kwargs"@) == if wants_thinking(body) {
            None
        } else {
            Some(JsonView::Object(map!["enable_thinking"@ => JsonView::Bool(false)]))
        },
{
    lemma_request_keys_differ();
    let base = map![
        "model"@ => text_view(model_id),
        "messages"@ => JsonView::Array(request_messages(body)),
        "stream"@ => JsonView::Bool(body.flag("stream"@)),
    ];
    let limited = with_field(base, "max_tokens"@, body.field("max_tokens"@));
    let equipped = with_field(limited, "tools"@, converted_tools(body));
    let choosing = with_field(equipped, "tool_choice"@, converted_tool_choice(body));
    assert(!base.contains_key("chat_template_kwargs"@));
    assert(!choosing.contains_key("chat_template_kwargs"@));
}

/// A conversation is translated message by message, in order.
pub proof fn law_conversation_keeps_its_order(first: Seq<JsonView>, second: Seq<JsonView>)
    ensures
        converted_messages(first + second) == converted_messages(first) + converted_messages(
            second,
        ),
    decreases second.len(),
{
    if second.len() == 0 {
        assert(first + second =~= first);
        assert(converted_messages(first) + converted_messages(second) =~= converted_messages(
            first,
        ));
    } else {
        law_conversation_keeps_its_order(first, second.drop_last());
        assert((first + second).drop_last() =~= first + second.drop_last());
        assert(converted_messages(first + second) =~= converted_messages(first)
            + converted_messages(second));
    }
}

/// Does a block of a message of this role count: text, a tool call of the
/// assistant, or a tool result of the user?
pub open spec fn counts(role: Seq<char>, block: JsonView) -> bool {
    ||| block.field_text("type"@) == Some("text"@)
    ||| block.field_text("type"@) == Some("tool_use"@) && role == "assistant"@
    ||| block.field_text("type"@) == Some("tool_result"@) && role == "user"@
}

/// Leaving out elements in which nothing is found changes nothing.
proof fn lemma_picked_from_filtered<A>(
    items: Seq<JsonView>,
    pick: spec_fn(JsonView) -> Option<A>,
    keep: spec_fn(JsonView) -> bool,
)
    requires
        forall|item: JsonView| #[trigger] pick(item) is Some ==> keep(item),
    ensures
        picked(items.filter(keep), pick) == picked(items, pick),
    decreases items.len(),
{
    reveal(Seq::filter);
    if items.len() > 0 {
        let fewer = items.drop_last();
        lemma_picked_from_filtered(fewer, pick, keep);
        assert(pick(items.last()) is Some ==> keep(items.last()));
        if keep(items.last()) {
            assert(items.filter(keep).drop_last() =~= fewer.filter(keep));
        }
    }
}

/// Blocks that do not count (thoughts, images, unknown ones, and those that the
/// role does not have) leave no trace.
pub proof fn law_other_blocks_leave_no_trace(role: Seq<char>, blocks: Seq<JsonView>)
    ensures
        converted(role, JsonView::Array(blocks)) == converted(
            role,
            JsonView::Array(blocks.filter(|block: JsonView| counts(role, block))),
        ),
{
    let keep = |block: JsonView| counts(role, block);
    lemma_picked_from_filtered(blocks, |block: JsonView| text_of_block(block), keep);
    if role == "assistant"@ {
        lemma_picked_from_filtered(blocks, |block: JsonView| call_of_block(block), keep);
    }
    if role == "user"@ {
        lemma_picked_from_filtered(blocks, |block: JsonView| result_of_block(block), keep);
    }
}

/// A tool that is used: its id, its name and its input.
pub struct ToolUse {
    pub id: Seq<char>,
    pub name: Seq<char>,
    pub input: JsonView,
}

/// A block that uses a tool.
pub open spec fn use_block(tool: ToolUse) -> JsonView {
    JsonView::Object(
        map![
            "type"@ => text_view("tool_use"@),
            "id"@ => text_view(tool.id),
            "name"@ => text_view(tool.name),
            "input"@ => tool.input,
        ],
    )
}

/// A turn of the assistant: what it says, and the tools that it uses.
pub open spec fn turn_blocks(said: Seq<char>, tools: Seq<ToolUse>) -> Seq<JsonView> {
    text_blocks("text"@, "text"@, Some(said)) + tools.map_values(|tool: ToolUse| use_block(tool))
}

/// The fields of blocks and calls that a turn goes through.
proof fn lemma_turn_fields(tool: ToolUse)
    requires
        parsed_text(json_text(tool.input)) == Some(tool.input),
    ensures
        text_of_block(use_block(tool)) is None,
        call_of_block(use_block(tool)) == Some(
            tool_call(use_block(tool), json_text(tool.input)),
        ),
        ({
            let call = tool_call(use_block(tool), json_text(tool.input));
            tool_use_block(call, parsed_text(arguments_text(call))) == use_block(tool)
        }),
{
    reveal_strlit("id");
    reveal_strlit("type");
    reveal_strlit("function");
    reveal_strlit("name");
    reveal_strlit("arguments");
    reveal_strlit("input");
    reveal_strlit("tool_use");
    reveal_strlit("text");
    assert("type"@[0] != "name"@[0]);
    assert("id"@.len() == 2 && "type"@.len() == 4 && "name"@.len() == 4 && "input"@.len() == 5);
    assert("function"@.len() == 8 && "arguments"@.len() == 9);
    assert("tool_use"@.len() == 8 && "text"@.len() == 4);
    assert("id"@ != "type"@ && "id"@ != "function"@ && "id"@ != "name"@ && "id"@ != "input"@);
    assert("type"@ != "function"@ && "type"@ != "name"@ && "type"@ != "input"@);
    assert("name"@ != "arguments"@ && "name"@ != "input"@);
    assert("tool_use"@ != "text"@);
    let block = use_block(tool);
    assert(block.field_text("type"@) == Some("tool_use"@));
    assert(block.text_or("id"@, ""@) == tool.id);
    assert(block.text_or("name"@, ""@) == tool.name);
    assert(tool_input(block) == tool.input);
    let call = tool_call(block, json_text(tool.input));
    assert(call.text_or("id"@, ""@) == tool.id);
    assert(call.at("function"@).text_or("name"@, ""@) == tool.name);
    assert(arguments_text(call) == json_text(tool.input));
}

/// What is picked from the tools of a turn.
proof fn lemma_turn_is_picked(front: Seq<JsonView>, tools: Seq<ToolUse>)
    requires
        forall|i: int|
            0 <= i < tools.len() ==> parsed_text(json_text((#[trigger] tools[i]).input)) == Some(
                tools[i].input,
            ),
    ensures
        ({
            let blocks = front + tools.map_values(|tool: ToolUse| use_block(tool));
            &&& block_texts(blocks) == block_texts(front)
            &&& block_calls(blocks) == block_calls(front) + tools.map_values(
                |tool: ToolUse| tool_call(use_block(tool), json_text(tool.input)),
            )
        }),
    decreases tools.len(),
{
    let f = |tool: ToolUse| use_block(tool);
    let g = |tool: ToolUse| tool_call(use_block(tool), json_text(tool.input));
    let blocks = front + tools.map_values(f);
    if tools.len() == 0 {
        assert(blocks =~= front);
        assert(block_calls(front) + tools.map_values(g) =~= block_calls(front));
    } else {
        let fewer = tools.drop_last();
        assert forall|i: int| 0 <= i < fewer.len() implies parsed_text(
            json_text((#[trigger] fewer[i]).input),
        ) == Some(fewer[i].input) by {
            assert(fewer[i] == tools[i]);
        }
        lemma_turn_is_picked(front, fewer);
        assert(parsed_text(json_text(tools[tools.len() - 1].input)) == Some(
            tools[tools.len() - 1].input,
        ));
        lemma_turn_fields(tools.last());
        assert(blocks.drop_last() =~= front + fewer.map_values(f));
        assert(blocks.last() == use_block(tools.last()));
        assert(block_calls(blocks) =~= block_calls(front) + tools.map_values(g));
    }
}

/// A whole turn of the assistant, what it says and any tools that it uses, goes to
/// the server as one message and comes back as the same blocks in the same order,
/// as long as parsing gives back each input that was rendered.
pub proof fn law_assistant_turns_survive_the_round_trip(said: Seq<char>, tools: Seq<ToolUse>)
    requires
        said.len() > 0,
        forall|i: int|
            0 <= i < tools.len() ==> parsed_text(json_text((#[trigger] tools[i]).input)) == Some(
                tools[i].input,
            ),
    ensures
        ({
            let out = converted("assistant"@, JsonView::Array(turn_blocks(said, tools)));
            out.len() == 1 && content_blocks(out[0]) == turn_blocks(said, tools)
        }),
{
    reveal_strlit("type");
    reveal_strlit("text");
    reveal_strlit("role");
    reveal_strlit("content");
    reveal_strlit("tool_calls");
    reveal_strlit("tool_use");
    reveal_strlit("reasoning_content");
    assert("type"@[1] != "text"@[1] && "type"@.len() == 4 && "text"@.len() == 4);
    assert("role"@.len() == 4 && "content"@.len() == 7 && "tool_calls"@.len() == 10);
    assert("reasoning_content"@.len() == 17 && "tool_use"@.len() == 8);
    let front = text_blocks("text"@, "text"@, Some(said));
    let blocks = turn_blocks(said, tools);
    let first = front[0];
    assert(front =~= seq![first]);
    assert(first.field_text("type"@) == Some("text"@));
    assert(first.field_text("text"@) == Some(said));
    assert(front.drop_last() =~= Seq::empty());
    assert(block_texts(front) =~= seq![said]) by {
        reveal_with_fuel(picked, 2);
    }
    assert(block_calls(front) =~= Seq::<JsonView>::empty()) by {
        reveal_with_fuel(picked, 2);
        assert("tool_use"@ != "text"@);
    }
    lemma_turn_is_picked(front, tools);
    let g = |tool: ToolUse| tool_call(use_block(tool), json_text(tool.input));
    let calls = tools.map_values(g);
    assert(block_calls(blocks) =~= calls);
    let out = converted("assistant"@, JsonView::Array(blocks));
    let message = out[0];
    assert(message.field_text("content"@) == Some(said));
    assert(message.field_text("reasoning_content"@) is None);
    let uses = tool_use_blocks(message.field_array("tool_calls"@));
    if tools.len() == 0 {
        assert(message.field_array("tool_calls"@) is None);
        assert(content_blocks(message) =~= blocks);
    } else {
        assert(message.field_array("tool_calls"@) == Some(calls));
        assert forall|i: int| 0 <= i < tools.len() implies #[trigger] uses[i] == use_block(
            tools[i],
        ) by {
            assert(parsed_text(json_text(tools[i].input)) == Some(tools[i].input));
            lemma_turn_fields(tools[i]);
            assert(calls[i] == g(tools[i]));
        }
        assert(content_blocks(message) =~= blocks);
    }
}

} // verus!
