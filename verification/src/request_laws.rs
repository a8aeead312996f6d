//! What holds of a translated request, said of the fields that a client sends
//! and of those that the server receives.

use crate::anthropic::{
    any_text, block_calls, block_results, block_texts, call_of_block, converted, converted_entry,
    converted_messages, converted_tool, law_request_keeps_what_was_asked,
    law_thinking_is_left_off_unless_asked_for, lemma_request_keys_differ, openai_request, picked, quarter_up, request_messages,
    request_size, result_of_block, system_messages, system_prompt, text_message,
    text_of_block,
};
use crate::json::JsonView;
use crate::text::joined;
use crate::wire::json_text;
use vstd::prelude::*;

verus! {

/// The elements of a list that have this type.
pub open spec fn of_type(blocks: Seq<JsonView>, kind: Seq<char>) -> Seq<JsonView> {
    blocks.filter(|block: JsonView| block.field_text("type"@) == Some(kind))
}

/// The strings under `key` of the elements that have one, on lines of their own.
pub open spec fn lines_under(blocks: Seq<JsonView>, key: Seq<char>) -> Seq<char> {
    joined(
        blocks.filter(|block: JsonView| block.field_text(key) is Some).map_values(
            |block: JsonView| block.field_text(key)->0,
        ),
        "\n"@,
    )
}

/// Has an object no fields but these?
pub open spec fn has_only(json: JsonView, keys: Seq<Seq<char>>) -> bool {
    forall|key: Seq<char>| #[trigger] json.field(key) is Some ==> keys.contains(key)
}

/// What the text blocks of a list say, on lines of their own.
pub open spec fn said_in(blocks: Seq<JsonView>) -> Seq<char> {
    lines_under(of_type(blocks, "text"@), "text"@)
}

/// What is picked from a list is what is found in the elements where anything is.
proof fn lemma_picked_is_filtered<A>(items: Seq<JsonView>, pick: spec_fn(JsonView) -> Option<A>)
    ensures
        picked(items, pick) == items.filter(|item: JsonView| pick(item) is Some).map_values(
            |item: JsonView| pick(item)->0,
        ),
    decreases items.len(),
{
    reveal(Seq::filter);
    let has = |item: JsonView| pick(item) is Some;
    let get = |item: JsonView| pick(item)->0;
    if items.len() > 0 {
        lemma_picked_is_filtered(items.drop_last(), pick);
        assert(picked(items, pick) =~= items.filter(has).map_values(get));
    } else {
        assert(picked(items, pick) =~= items.filter(has).map_values(get));
    }
}

/// Filtering twice is filtering by both.
proof fn lemma_filter_twice(
    items: Seq<JsonView>,
    first: spec_fn(JsonView) -> bool,
    second: spec_fn(JsonView) -> bool,
    both: spec_fn(JsonView) -> bool,
)
    requires
        forall|item: JsonView| #[trigger] both(item) <==> first(item) && second(item),
    ensures
        items.filter(first).filter(second) == items.filter(both),
    decreases items.len(),
{
    reveal(Seq::filter);
    if items.len() > 0 {
        let fewer = items.drop_last();
        lemma_filter_twice(fewer, first, second, both);
        assert(both(items.last()) <==> first(items.last()) && second(items.last()));
        if first(items.last()) {
            assert(items.filter(first).drop_last() =~= fewer.filter(first));
        }
    }
}

/// Filters that agree on every element keep the same ones.
proof fn lemma_filters_agree(
    items: Seq<JsonView>,
    first: spec_fn(JsonView) -> bool,
    second: spec_fn(JsonView) -> bool,
)
    requires
        forall|item: JsonView| #[trigger] first(item) == second(item),
    ensures
        items.filter(first) == items.filter(second),
    decreases items.len(),
{
    reveal(Seq::filter);
    if items.len() > 0 {
        lemma_filters_agree(items.drop_last(), first, second);
        assert(first(items.last()) == second(items.last()));
    }
}

/// What is picked from the text blocks of a list.
proof fn lemma_said(blocks: Seq<JsonView>)
    ensures
        joined(block_texts(blocks), "\n"@) == said_in(blocks),
{
    let pick = |block: JsonView| text_of_block(block);
    let is_text = |block: JsonView| block.field_text("type"@) == Some("text"@);
    let has = |block: JsonView| block.field_text("text"@) is Some;
    let found = |block: JsonView| pick(block) is Some;
    lemma_picked_is_filtered(blocks, pick);
    lemma_filter_twice(blocks, is_text, has, found);
    let kept = blocks.filter(found);
    assert(of_type(blocks, "text"@).filter(has) == kept);
    let get = |block: JsonView| block.field_text("text"@)->0;
    broadcast use vstd::seq_lib::group_filter_ensures;
    assert forall|i: int| 0 <= i < kept.len() implies #[trigger] get(kept[i]) == pick(kept[i])->0 by {
        assert(kept.contains(kept[i]));
        assert(found(kept[i]));
    }
    assert(kept.map_values(get) =~= kept.map_values(|block: JsonView| pick(block)->0));
}

/// What is picked from the blocks of one type.
proof fn lemma_picked_of_type(
    blocks: Seq<JsonView>,
    kind: Seq<char>,
    pick: spec_fn(JsonView) -> Option<JsonView>,
)
    requires
        forall|block: JsonView|
            (#[trigger] pick(block)) is Some <==> block.field_text("type"@) == Some(kind),
    ensures
        picked(blocks, pick) == of_type(blocks, kind).map_values(|block: JsonView| pick(block)->0),
{
    lemma_picked_is_filtered(blocks, pick);
    lemma_filters_agree(
        blocks,
        |block: JsonView| pick(block) is Some,
        |block: JsonView| block.field_text("type"@) == Some(kind),
    );
}

/// The names of the fields of messages, calls and tools, told apart.
pub proof fn lemma_field_names_differ()
    ensures
        "id"@.len() == 2,
        "role"@.len() == 4,
        "type"@.len() == 4,
        "name"@.len() == 4,
        "text"@.len() == 4,
        "input"@.len() == 5,
        "usage"@.len() == 5,
        "model"@.len() == 5,
        "content"@.len() == 7,
        "function"@.len() == 8,
        "thinking"@.len() == 8,
        "tool_use"@.len() == 8,
        "arguments"@.len() == 9,
        "parameters"@.len() == 10,
        "tool_calls"@.len() == 10,
        "properties"@.len() == 10,
        "description"@.len() == 11,
        "tool_result"@.len() == 11,
        "stop_reason"@.len() == 11,
        "tool_call_id"@.len() == 12,
        "input_tokens"@.len() == 12,
        "output_tokens"@.len() == 13,
        "stop_sequence"@.len() == 13,
        "role"@ != "type"@,
        "role"@ != "name"@,
        "role"@ != "text"@,
        "type"@ != "name"@,
        "type"@ != "text"@,
        "name"@ != "text"@,
        "model"@ != "usage"@,
        "model"@ != "input"@,
        "function"@ != "thinking"@,
        "thinking"@ != "tool_use"@,
        "function"@ != "tool_use"@,
{
    reveal_strlit("id");
    reveal_strlit("role");
    reveal_strlit("type");
    reveal_strlit("name");
    reveal_strlit("text");
    reveal_strlit("input");
    reveal_strlit("usage");
    reveal_strlit("model");
    reveal_strlit("content");
    reveal_strlit("function");
    reveal_strlit("thinking");
    reveal_strlit("tool_use");
    reveal_strlit("arguments");
    reveal_strlit("parameters");
    reveal_strlit("tool_calls");
    reveal_strlit("properties");
    reveal_strlit("description");
    reveal_strlit("tool_result");
    reveal_strlit("stop_reason");
    reveal_strlit("tool_call_id");
    reveal_strlit("input_tokens");
    reveal_strlit("output_tokens");
    reveal_strlit("stop_sequence");
    assert("role"@[0] == 'r' && "name"@[0] == 'n');
    assert("type"@[0] == 't' && "text"@[0] == 't' && "type"@[1] == 'y' && "text"@[1] == 'e');
    assert("model"@[0] == 'm' && "usage"@[0] == 'u' && "input"@[0] == 'i');
    assert("function"@[0] == 'f' && "thinking"@[1] == 'h' && "tool_use"@[1] == 'o');
    assert("thinking"@[0] == 't' && "tool_use"@[0] == 't');
}

/// The roles of messages are told apart.
proof fn lemma_roles_differ()
    ensures
        "assistant"@ != "user"@,
        "tool"@ != "user"@,
        "text"@ != "tool_use"@,
        "text"@ != "tool_result"@,
{
    reveal_strlit("assistant");
    reveal_strlit("user");
    reveal_strlit("tool");
    reveal_strlit("text");
    reveal_strlit("tool_use");
    reveal_strlit("tool_result");
    assert("assistant"@.len() == 9 && "user"@.len() == 4);
    assert("tool"@[0] == 't' && "user"@[0] == 'u');
    assert("text"@.len() == 4 && "tool_use"@.len() == 8 && "tool_result"@.len() == 11);
}

/// A message whose content is a string keeps its role and its text, whatever they
/// are; one that says nothing, and content that is neither a string nor a list,
/// become no message.
pub proof fn law_plain_messages_keep_role_and_text(role: Seq<char>, said: Seq<char>, other: JsonView)
    requires
        !(other is Text) && !(other is Array),
    ensures
        said.len() > 0 ==> {
            let out = converted(role, JsonView::Text(said));
            &&& out.len() == 1
            &&& out[0].field_text("role"@) == Some(role)
            &&& out[0].field_text("content"@) == Some(said)
            &&& forall|key: Seq<char>| #[trigger]
                out[0].field(key) is Some ==> key == "role"@ || key == "content"@
        },
        said.len() == 0 ==> converted(role, JsonView::Text(said)).len() == 0,
        converted(role, other).len() == 0,
{
    lemma_field_names_differ();
}

/// What a user message says in its text blocks becomes the content of one last user
/// message, whenever that is anything, and whatever tool results there are, none at
/// all among them. In front of it stand the tool results and nothing else: a `tool`
/// message for each, in order, with the id of the call that it answers.
pub proof fn law_user_text_follows_the_tool_results(blocks: Seq<JsonView>)
    ensures
        ({
            let out = converted("user"@, JsonView::Array(blocks));
            let said = said_in(blocks);
            let answers = of_type(blocks, "tool_result"@);
            &&& said.len() > 0 ==> {
                &&& out.len() == answers.len() + 1
                &&& out.last() == JsonView::Object(
                    map![
                        "role"@ => JsonView::Text("user"@),
                        "content"@ => JsonView::Text(said),
                    ],
                )
            }
            &&& said.len() == 0 ==> out.len() == answers.len()
            &&& forall|i: int|
                0 <= i < answers.len() ==> {
                    &&& (#[trigger] out[i]).field_text("role"@) == Some("tool"@)
                    &&& out[i].field_text("tool_call_id"@) == Some(
                        answers[i].text_or("tool_use_id"@, ""@),
                    )
                    &&& out[i].field_text("content"@) == Some(
                        match answers[i].field("content"@) {
                            Some(JsonView::Text(s)) => s,
                            Some(JsonView::Array(parts)) => said_in(parts),
                            Some(other) => json_text(other),
                            None => Seq::empty(),
                        },
                    )
                    &&& has_only(out[i], seq!["role"@, "tool_call_id"@, "content"@])
                }
        }),
{
    lemma_field_names_differ();
    lemma_roles_differ();
    lemma_said(blocks);
    let pick = |block: JsonView| result_of_block(block);
    lemma_picked_of_type(blocks, "tool_result"@, pick);
    let out = converted("user"@, JsonView::Array(blocks));
    let answers = of_type(blocks, "tool_result"@);
    let results = block_results(blocks);
    assert(results.len() == answers.len());
    broadcast use vstd::seq_lib::group_filter_ensures;
    assert forall|i: int| 0 <= i < answers.len() implies {
        &&& (#[trigger] out[i]).field_text("role"@) == Some("tool"@)
        &&& out[i].field_text("tool_call_id"@) == Some(answers[i].text_or("tool_use_id"@, ""@))
        &&& out[i].field_text("content"@) == Some(
            match answers[i].field("content"@) {
                Some(JsonView::Text(s)) => s,
                Some(JsonView::Array(parts)) => said_in(parts),
                Some(other) => json_text(other),
                None => Seq::empty(),
            },
        )
        &&& has_only(out[i], seq!["role"@, "tool_call_id"@, "content"@])
    } by {
        let keys = seq!["role"@, "tool_call_id"@, "content"@];
        assert(keys[0] == "role"@ && keys[1] == "tool_call_id"@ && keys[2] == "content"@);
        assert(answers.contains(answers[i]));
        assert(answers[i].field_text("type"@) == Some("tool_result"@));
        assert(out[i] == results[i]);
        assert(results[i] == pick(answers[i])->0);
        match answers[i].field("content"@) {
            Some(JsonView::Array(parts)) => {
                lemma_said(parts);
            },
            _ => {},
        }
    }
}

/// A message of texts alone says all of them, on lines of their own, in one message:
/// of the assistant where it is the assistant's, of the user otherwise. So a message
/// of one text block that is not empty becomes exactly one message with that text.
pub proof fn law_texts_become_one_message(role: Seq<char>, texts: Seq<Seq<char>>)
    requires
        joined(texts, "\n"@).len() > 0,
    ensures
        ({
            let blocks = texts.map_values(
                |s: Seq<char>|
                    JsonView::Object(
                        map!["type"@ => JsonView::Text("text"@), "text"@ => JsonView::Text(s)],
                    ),
            );
            let out = converted(role, JsonView::Array(blocks));
            &&& out.len() == 1
            &&& out[0].field_text("role"@) == Some(
                if role == "assistant"@ {
                    role
                } else {
                    "user"@
                },
            )
            &&& out[0].field_text("content"@) == Some(joined(texts, "\n"@))
            &&& forall|key: Seq<char>| #[trigger]
                out[0].field(key) is Some ==> key == "role"@ || key == "content"@
        }),
{
    lemma_field_names_differ();
    lemma_roles_differ();
    lemma_texts_are_picked(texts);
}

/// What is picked from blocks of texts alone.
proof fn lemma_texts_are_picked(texts: Seq<Seq<char>>)
    ensures
        ({
            let blocks = texts.map_values(
                |s: Seq<char>|
                    JsonView::Object(
                        map!["type"@ => JsonView::Text("text"@), "text"@ => JsonView::Text(s)],
                    ),
            );
            &&& block_texts(blocks) == texts
            &&& block_calls(blocks).len() == 0
            &&& block_results(blocks).len() == 0
        }),
    decreases texts.len(),
{
    lemma_field_names_differ();
    lemma_roles_differ();
    let make = |s: Seq<char>|
        JsonView::Object(
            map!["type"@ => JsonView::Text("text"@), "text"@ => JsonView::Text(s)],
        );
    let blocks = texts.map_values(make);
    if texts.len() > 0 {
        lemma_texts_are_picked(texts.drop_last());
        assert(blocks.drop_last() =~= texts.drop_last().map_values(make));
        let block = blocks.last();
        assert(block == make(texts.last()));
        assert(block.field_text("type"@) == Some("text"@));
        assert(block.field_text("text"@) == Some(texts.last()));
        assert(block_texts(blocks) =~= texts);
    } else {
        assert(block_texts(blocks) =~= texts);
    }
}

/// A message of the assistant becomes one message, unless it neither says anything
/// nor uses a tool. It holds what the text blocks say, or null, and a call for each
/// tool that is used, in order, with its id, its name and its input as JSON text.
pub proof fn law_assistant_messages_keep_text_and_calls(blocks: Seq<JsonView>)
    ensures
        ({
            let out = converted("assistant"@, JsonView::Array(blocks));
            let said = said_in(blocks);
            let uses = of_type(blocks, "tool_use"@);
            &&& out.len() == if said.len() > 0 || uses.len() > 0 {
                1nat
            } else {
                0nat
            }
            &&& out.len() == 1 ==> {
                &&& out[0].field_text("role"@) == Some("assistant"@)
                &&& out[0].field("content"@) == Some(
                    if said.len() > 0 {
                        JsonView::Text(said)
                    } else {
                        JsonView::Null
                    },
                )
                &&& out[0].field("tool_calls"@) is Some <==> uses.len() > 0
                &&& has_only(out[0], seq!["role"@, "content"@, "tool_calls"@])
                &&& uses.len() > 0 ==> {
                    let calls = out[0].field_array("tool_calls"@)->0;
                    &&& out[0].field_array("tool_calls"@) is Some
                    &&& calls.len() == uses.len()
                    &&& forall|i: int|
                        0 <= i < uses.len() ==> {
                            let function = (#[trigger] calls[i]).at("function"@);
                            &&& calls[i].field_text("id"@) == Some(uses[i].text_or("id"@, ""@))
                            &&& calls[i].field_text("type"@) == Some("function"@)
                            &&& function.field_text("name"@) == Some(
                                uses[i].text_or("name"@, ""@),
                            )
                            &&& function.field_text("arguments"@) == Some(
                                json_text(
                                    match uses[i].field("input"@) {
                                        Some(input) => input,
                                        None => JsonView::Object(Map::empty()),
                                    },
                                ),
                            )
                            &&& has_only(calls[i], seq!["id"@, "type"@, "function"@])
                            &&& has_only(function, seq!["name"@, "arguments"@])
                        }
                }
            }
        }),
{
    lemma_field_names_differ();
    lemma_roles_differ();
    lemma_said(blocks);
    let pick = |block: JsonView| call_of_block(block);
    lemma_picked_of_type(blocks, "tool_use"@, pick);
    let out = converted("assistant"@, JsonView::Array(blocks));
    let uses = of_type(blocks, "tool_use"@);
    let calls = block_calls(blocks);
    let fields = seq!["role"@, "content"@, "tool_calls"@];
    assert(fields[0] == "role"@ && fields[1] == "content"@ && fields[2] == "tool_calls"@);
    assert(calls.len() == uses.len());
    broadcast use vstd::seq_lib::group_filter_ensures;
    assert forall|i: int| 0 <= i < uses.len() implies {
        let function = (#[trigger] calls[i]).at("function"@);
        &&& calls[i].field_text("id"@) == Some(uses[i].text_or("id"@, ""@))
        &&& calls[i].field_text("type"@) == Some("function"@)
        &&& function.field_text("name"@) == Some(uses[i].text_or("name"@, ""@))
        &&& function.field_text("arguments"@) == Some(
            json_text(
                match uses[i].field("input"@) {
                    Some(input) => input,
                    None => JsonView::Object(Map::empty()),
                },
            ),
        )
        &&& has_only(calls[i], seq!["id"@, "type"@, "function"@])
        &&& has_only(function, seq!["name"@, "arguments"@])
    } by {
        let keys = seq!["id"@, "type"@, "function"@];
        assert(keys[0] == "id"@ && keys[1] == "type"@ && keys[2] == "function"@);
        let inner = seq!["name"@, "arguments"@];
        assert(inner[0] == "name"@ && inner[1] == "arguments"@);
        assert(uses.contains(uses[i]));
        assert(uses[i].field_text("type"@) == Some("tool_use"@));
        assert(calls[i] == pick(uses[i])->0);
    }
}

/// A list of blocks of any other role is taken as the user's, for what it says.
pub proof fn law_other_roles_speak_as_the_user(role: Seq<char>, blocks: Seq<JsonView>)
    requires
        role != "assistant"@,
        role != "user"@,
    ensures
        ({
            let out = converted(role, JsonView::Array(blocks));
            let said = said_in(blocks);
            &&& said.len() == 0 ==> out.len() == 0
            &&& said.len() > 0 ==> {
                &&& out.len() == 1
                &&& out[0].field_text("role"@) == Some("user"@)
                &&& out[0].field_text("content"@) == Some(said)
            }
        }),
{
    lemma_field_names_differ();
    lemma_said(blocks);
}

/// Each entry of a conversation is converted by itself: by its role, which is the
/// user's where none is given, and its content; without content it becomes nothing.
pub proof fn law_entries_are_converted_one_by_one(message: JsonView)
    ensures
        message.field("content"@) matches Some(content) ==> {
            &&& message.field_text("role"@) matches Some(role) ==> converted_messages(
                seq![message],
            ) == converted(role, content)
            &&& message.field_text("role"@) is None ==> converted_messages(seq![message])
                == converted("user"@, content)
        },
        message.field("content"@) is None ==> converted_messages(seq![message]).len() == 0,
{
    reveal_with_fuel(converted_messages, 2);
    assert(seq![message].drop_last() =~= Seq::empty());
    assert(converted_messages(seq![message]) =~= converted_entry(message));
}

/// A request opens with its system prompt, where that is not empty: a string, or the
/// texts of a list of blocks on lines of their own. The conversation follows, and
/// nothing else.
pub proof fn law_system_prompt_comes_first(body: JsonView)
    ensures
        ({
            let out = request_messages(body);
            let prompt = match body.field("system"@) {
                Some(JsonView::Text(s)) => s,
                Some(JsonView::Array(blocks)) => lines_under(blocks, "text"@),
                _ => Seq::empty(),
            };
            let rest = match body.field("messages"@) {
                Some(JsonView::Array(messages)) => converted_messages(messages),
                _ => Seq::empty(),
            };
            &&& prompt.len() > 0 ==> {
                &&& out.len() == rest.len() + 1
                &&& out[0] == JsonView::Object(
                    map![
                        "role"@ => JsonView::Text("system"@),
                        "content"@ => JsonView::Text(prompt),
                    ],
                )
                &&& out.skip(1) == rest
            }
            &&& prompt.len() == 0 ==> out == rest
        }),
{
    match body.field("system"@) {
        Some(JsonView::Array(blocks)) => {
            lemma_picked_is_filtered(blocks, any_text());
            let has = |block: JsonView| block.field_text("text"@) is Some;
            let get = |block: JsonView| block.field_text("text"@)->0;
            lemma_filters_agree(
                blocks,
                |block: JsonView| (any_text())(block) is Some,
                has,
            );
            assert(blocks.filter(has).map_values(
                |block: JsonView| (any_text())(block)->0,
            ) =~= blocks.filter(has).map_values(get));
        },
        _ => {},
    }
    let rest = match body.field("messages"@) {
        Some(JsonView::Array(messages)) => converted_messages(messages),
        _ => Seq::empty(),
    };
    let front = system_messages(body);
    assert(request_messages(body) =~= front + rest);
    assert(front.len() == 1 ==> (front + rest).skip(1) =~= rest);
    assert(front.len() == 0 ==> front + rest =~= rest);
}

/// Every tool that is offered is offered to the server, in order: with its name, its
/// description and its schema, or the schema of any object where it gives none. A
/// request that offers none offers none.
pub proof fn law_every_tool_is_offered(body: JsonView, model_id: Seq<char>)
    ensures
        ({
            let request = openai_request(body, model_id);
            match body.field("tools"@) {
                Some(JsonView::Array(tools)) => {
                    let offered = request.field_array("tools"@)->0;
                    &&& tools.len() == 0 ==> request.field("tools"@) is None
                    &&& tools.len() > 0 ==> {
                        &&& request.field_array("tools"@) is Some
                        &&& offered.len() == tools.len()
                        &&& forall|i: int|
                            0 <= i < tools.len() ==> {
                                let function = (#[trigger] offered[i]).at("function"@);
                                &&& offered[i].field_text("type"@) == Some("function"@)
                                &&& function.field_text("name"@) == Some(
                                    tools[i].text_or("name"@, ""@),
                                )
                                &&& function.field_text("description"@) == Some(
                                    tools[i].text_or("description"@, ""@),
                                )
                                &&& function.field("parameters"@) == Some(
                                    match tools[i].field("input_schema"@) {
                                        Some(schema) => schema,
                                        None => JsonView::Object(
                                            map![
                                                "type"@ => JsonView::Text("object"@),
                                                "properties"@ => JsonView::Object(Map::empty()),
                                            ],
                                        ),
                                    },
                                )
                                &&& has_only(offered[i], seq!["type"@, "function"@])
                                &&& has_only(
                                    function,
                                    seq!["name"@, "description"@, "parameters"@],
                                )
                            }
                    }
                },
                _ => request.field("tools"@) is None,
            }
        }),
{
    lemma_field_names_differ();
    law_request_keeps_what_was_asked(body, model_id);
    match body.field("tools"@) {
        Some(JsonView::Array(tools)) => {
            if tools.len() > 0 {
                let offered = openai_request(body, model_id).field_array("tools"@)->0;
                assert(offered =~= tools.map_values(|tool: JsonView| converted_tool(tool)));
                assert forall|i: int| 0 <= i < tools.len() implies #[trigger] offered[i]
                    == converted_tool(tools[i]) by {}
                let keys = seq!["type"@, "function"@];
                assert(keys[0] == "type"@ && keys[1] == "function"@);
                let inner = seq!["name"@, "description"@, "parameters"@];
                assert(inner[0] == "name"@ && inner[1] == "description"@);
                assert(inner[2] == "parameters"@);
            }
        },
        _ => {},
    }
}

/// The choice of tools goes to the server in its own terms: left open, ruled out,
/// required, or required of one tool by its name. Any other choice is left open by
/// saying nothing.
pub proof fn law_tool_choices_have_counterparts(body: JsonView, model_id: Seq<char>)
    ensures
        ({
            let chosen = openai_request(body, model_id).field("tool_choice"@);
            let kind = body.at("tool_choice"@).field_text("type"@);
            &&& kind == Some("auto"@) ==> chosen == Some(JsonView::Text("auto"@))
            &&& kind == Some("none"@) ==> chosen == Some(JsonView::Text("none"@))
            &&& kind == Some("any"@) ==> chosen == Some(JsonView::Text("required"@))
            &&& kind == Some("tool"@) ==> {
                &&& chosen is Some
                &&& chosen->0.field_text("type"@) == Some("function"@)
                &&& chosen->0.at("function"@).field_text("name"@) == Some(
                    body.at("tool_choice"@).text_or("name"@, ""@),
                )
            }
            &&& chosen is Some <==> kind == Some("auto"@) || kind == Some("none"@) || kind == Some(
                "any"@,
            ) || kind == Some("tool"@)
        }),
{
    lemma_field_names_differ();
    law_request_keeps_what_was_asked(body, model_id);
    reveal_strlit("auto");
    reveal_strlit("none");
    reveal_strlit("any");
    reveal_strlit("tool");
    assert("auto"@[0] == 'a' && "none"@[0] == 'n' && "tool"@[0] == 't');
    assert("auto"@.len() == 4 && "none"@.len() == 4 && "any"@.len() == 3 && "tool"@.len() == 4);
}

/// The estimate of a request's tokens is a quarter of its characters, rounded up:
/// those of its system prompt, of the JSON text of its messages and of that of its
/// tools.
pub proof fn law_estimate_is_a_quarter_of_the_characters(body: JsonView)
    ensures
        ({
            let estimate = quarter_up(request_size(body));
            let prompt = match body.field("system"@) {
                Some(JsonView::Text(s)) => s.len(),
                Some(JsonView::Array(blocks)) => lines_under(blocks, "text"@).len(),
                _ => 0,
            };
            let messages = match body.field("messages"@) {
                Some(JsonView::Array(list)) => json_text(JsonView::Array(list)).len(),
                _ => 0,
            };
            let tools = match body.field("tools"@) {
                Some(tools) => json_text(tools).len(),
                None => 0,
            };
            prompt + messages + tools <= 4 * estimate < prompt + messages + tools + 4
        }),
{
    law_system_prompt_comes_first(body);
    match system_prompt(body) {
        Some(prompt) => {
            assert(system_messages(body)[0] == text_message("system"@, prompt));
            lemma_field_names_differ();
            assert(request_messages(body)[0].field_text("content"@) == Some(prompt));
        },
        None => {},
    }
}

/// A request is sampled in one of two ways, with thinking or without, and which one
/// depends on nothing but the type of its `thinking` field. Whatever the client sets
/// for sampling itself is left aside, as is every field that has no counterpart.
pub proof fn law_sampling_goes_by_thinking_alone(body: JsonView, model_id: Seq<char>)
    ensures
        ({
            let request = openai_request(body, model_id);
            &&& body.at("thinking"@).field_text("type"@) == Some("enabled"@) ==> {
                &&& request.field("temperature"@) == Some(JsonView::Decimal("0.6"@))
                &&& request.field("top_p"@) == Some(JsonView::Decimal("0.95"@))
                &&& request.field("presence_penalty"@) == Some(JsonView::Decimal("1.0"@))
                &&& request.field("chat_template_kwargs"@) is None
            }
            &&& body.at("thinking"@).field_text("type"@) != Some("enabled"@) ==> {
                &&& request.field("temperature"@) == Some(JsonView::Decimal("0.7"@))
                &&& request.field("top_p"@) == Some(JsonView::Decimal("0.8"@))
                &&& request.field("presence_penalty"@) == Some(JsonView::Decimal("1.5"@))
                &&& request.field("chat_template_kwargs"@) == Some(
                    JsonView::Object(map!["enable_thinking"@ => JsonView::Bool(false)]),
                )
            }
            &&& request.field("top_k"@) == Some(JsonView::Integer(20))
            &&& request.field("min_p"@) == Some(JsonView::Integer(0))
            &&& forall|key: Seq<char>| #[trigger]
                request.field(key) is Some ==> {
                    ||| key == "model"@
                    ||| key == "messages"@
                    ||| key == "stream"@
                    ||| key == "max_tokens"@
                    ||| key == "tools"@
                    ||| key == "tool_choice"@
                    ||| key == "temperature"@
                    ||| key == "top_p"@
                    ||| key == "top_k"@
                    ||| key == "min_p"@
                    ||| key == "presence_penalty"@
                    ||| key == "chat_template_kwargs"@
                }
        }),
{
    lemma_request_keys_differ();
    law_thinking_is_left_off_unless_asked_for(body, model_id);
}

} // verus!
