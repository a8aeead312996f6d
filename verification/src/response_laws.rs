//! What holds of a translated response, said of the fields of the completion and of
//! those of the message that it becomes.

use crate::anthropic::{
    anthropic_message, arguments_text, content_blocks, stop_reason, text_blocks, tool_use_block,
    tool_use_blocks,
};
use crate::json::JsonView;
use crate::request_laws::{has_only, lemma_field_names_differ};
use crate::wire::parsed_text;
use vstd::prelude::*;

verus! {

/// The message of a completion.
pub open spec fn message_of(resp: JsonView) -> JsonView {
    resp.at("choices"@).nth(0).at("message"@)
}

/// One or none.
pub open spec fn one_if(holds: bool) -> int {
    if holds {
        1
    } else {
        0
    }
}

/// What a completion's message says is in the translated one: where its content is a
/// string that is not empty, there is exactly one text block, and it holds that string,
/// whatever else the message has; otherwise there is none. The same holds of what it
/// thinks, in one thinking block in front of everything else. Behind both there is a
/// block for each tool call, in order, and nothing more.
pub proof fn law_responses_keep_what_was_said(resp: JsonView, model_id: Seq<char>)
    ensures
        ({
            let content = anthropic_message(resp, model_id).field_array("content"@)->0;
            let thought = message_of(resp).text_or("reasoning_content"@, ""@);
            let said = message_of(resp).text_or("content"@, ""@);
            let calls = match message_of(resp).field("tool_calls"@) {
                Some(JsonView::Array(calls)) => calls,
                _ => Seq::empty(),
            };
            let before = one_if(thought.len() > 0);
            let front = before + one_if(said.len() > 0);
            &&& anthropic_message(resp, model_id).field_array("content"@) is Some
            &&& content.len() == front + calls.len()
            &&& thought.len() > 0 ==> content[0] == JsonView::Object(
                map![
                    "type"@ => JsonView::Text("thinking"@),
                    "thinking"@ => JsonView::Text(thought),
                ],
            )
            &&& said.len() > 0 ==> content[before] == JsonView::Object(
                map!["type"@ => JsonView::Text("text"@), "text"@ => JsonView::Text(said)],
            )
            &&& forall|i: int|
                0 <= i < content.len() ==> {
                    &&& (#[trigger] content[i]).field_text("type"@) == Some("thinking"@)
                        <==> thought.len() > 0 && i == 0
                    &&& content[i].field_text("type"@) == Some("text"@) <==> said.len() > 0 && i
                        == before
                    &&& content[i].field_text("type"@) == Some("tool_use"@) <==> i >= front
                }
            &&& forall|i: int|
                0 <= i < calls.len() ==> {
                    let block = #[trigger] content[front + i];
                    let function = calls[i].at("function"@);
                    &&& block.field_text("id"@) == Some(calls[i].text_or("id"@, ""@))
                    &&& block.field_text("name"@) == Some(function.text_or("name"@, ""@))
                    &&& block.field("input"@) == Some(
                        match parsed_text(function.text_or("arguments"@, "{}"@)) {
                            Some(input) => input,
                            None => JsonView::Object(Map::empty()),
                        },
                    )
                    &&& has_only(block, seq!["type"@, "id"@, "name"@, "input"@])
                }
        }),
{
    lemma_field_names_differ();
    lemma_message_fields(resp, model_id);
    reveal_strlit("");
    let message = message_of(resp);
    let content = content_blocks(message);
    let thoughts = text_blocks("thinking"@, "thinking"@, message.field_text("reasoning_content"@));
    let texts = text_blocks("text"@, "text"@, message.field_text("content"@));
    let uses = tool_use_blocks(message.field_array("tool_calls"@));
    let thought = message.text_or("reasoning_content"@, ""@);
    let said = message.text_or("content"@, ""@);
    let calls = match message.field("tool_calls"@) {
        Some(JsonView::Array(calls)) => calls,
        _ => Seq::empty(),
    };
    let before = one_if(thought.len() > 0);
    let front = before + one_if(said.len() > 0);
    assert(""@.len() == 0);
    assert(thoughts.len() == before);
    assert(texts.len() == one_if(said.len() > 0));
    assert(uses.len() == calls.len());
    assert(content =~= thoughts + texts + uses);
    assert forall|i: int| 0 <= i < calls.len() implies #[trigger] content[front + i]
        == tool_use_block(calls[i], parsed_text(arguments_text(calls[i]))) by {
        assert(content[front + i] == uses[i]);
    }
    let keys = seq!["type"@, "id"@, "name"@, "input"@];
    assert(keys[0] == "type"@ && keys[1] == "id"@ && keys[2] == "name"@ && keys[3] == "input"@);
    assert forall|call: JsonView, arguments: Option<JsonView>| has_only(
        #[trigger] tool_use_block(call, arguments),
        keys,
    ) by {}
    assert forall|i: int| 0 <= i < content.len() implies {
        &&& (#[trigger] content[i]).field_text("type"@) == Some("thinking"@) <==> thought.len() > 0
            && i == 0
        &&& content[i].field_text("type"@) == Some("text"@) <==> said.len() > 0 && i == before
        &&& content[i].field_text("type"@) == Some("tool_use"@) <==> i >= front
    } by {
        if i >= front {
            assert(content[front + (i - front)] == content[i]);
        }
    }
}

/// The fields of a translated message.
proof fn lemma_message_fields(resp: JsonView, model_id: Seq<char>)
    ensures
        ({
            let message = anthropic_message(resp, model_id);
            let choice = resp.at("choices"@).nth(0);
            &&& message.field_array("content"@) == Some(content_blocks(message_of(resp)))
            &&& message.field_text("id"@) == Some(resp.text_or("id"@, "msg_local"@))
            &&& message.field_text("type"@) == Some("message"@)
            &&& message.field_text("role"@) == Some("assistant"@)
            &&& message.field_text("model"@) == Some(model_id)
            &&& message.field_text("stop_reason"@) == Some(
                stop_reason(choice.field_text("finish_reason"@)),
            )
            &&& message.field("stop_sequence"@) == Some(JsonView::Null)
            &&& message.at("usage"@).field("input_tokens"@) == Some(
                JsonView::Integer(crate::anthropic::usage_count(resp, "prompt_tokens"@)),
            )
            &&& message.at("usage"@).field("output_tokens"@) == Some(
                JsonView::Integer(crate::anthropic::usage_count(resp, "completion_tokens"@)),
            )
        }),
{
    lemma_field_names_differ();
    assert("stop_reason"@.len() != "stop_sequence"@.len());
}

/// A translated message keeps the id of the completion and its token counts, which
/// are zero where there are none, and is the assistant's, of the given model.
pub proof fn law_responses_keep_id_and_usage(resp: JsonView, model_id: Seq<char>)
    ensures
        ({
            let message = anthropic_message(resp, model_id);
            let read = message.at("usage"@).field("input_tokens"@);
            let written = message.at("usage"@).field("output_tokens"@);
            &&& resp.field_text("id"@) matches Some(id) ==> message.field_text("id"@) == Some(id)
            &&& resp.field_text("id"@) is None ==> message.field_text("id"@) == Some("msg_local"@)
            &&& message.field_text("type"@) == Some("message"@)
            &&& message.field_text("role"@) == Some("assistant"@)
            &&& message.field_text("model"@) == Some(model_id)
            &&& message.field("stop_sequence"@) == Some(JsonView::Null)
            &&& match resp.at("usage"@).field("prompt_tokens"@) {
                Some(JsonView::Integer(n)) => read == Some(
                    JsonView::Integer(
                        if 0 <= n <= u64::MAX {
                            n
                        } else {
                            0
                        },
                    ),
                ),
                _ => read == Some(JsonView::Integer(0)),
            }
            &&& match resp.at("usage"@).field("completion_tokens"@) {
                Some(JsonView::Integer(n)) => written == Some(
                    JsonView::Integer(
                        if 0 <= n <= u64::MAX {
                            n
                        } else {
                            0
                        },
                    ),
                ),
                _ => written == Some(JsonView::Integer(0)),
            }
        }),
{
    lemma_message_fields(resp, model_id);
}

/// A translated message stops for the use of a tool exactly where the completion
/// ended with tool calls, for want of tokens exactly where it ended at its length, and
/// of itself for any other reason or for none.
pub proof fn law_responses_stop_for_the_same_reason(resp: JsonView, model_id: Seq<char>)
    ensures
        ({
            let reason = anthropic_message(resp, model_id).field_text("stop_reason"@);
            let finish = resp.at("choices"@).nth(0).field_text("finish_reason"@);
            &&& reason == Some("tool_use"@) <==> finish == Some("tool_calls"@)
            &&& reason == Some("max_tokens"@) <==> finish == Some("length"@)
            &&& reason == Some("end_turn"@) <==> finish != Some("tool_calls"@) && finish != Some(
                "length"@,
            )
        }),
{
    lemma_message_fields(resp, model_id);
    law_stop_reasons_have_counterparts(resp.at("choices"@).nth(0).field_text("finish_reason"@));
}

/// Why a message stops: for the use of a tool exactly where the completion ended with
/// tool calls, for want of tokens exactly where it ended at its length, and of itself
/// otherwise.
pub proof fn law_stop_reasons_have_counterparts(finish: Option<Seq<char>>)
    ensures
        stop_reason(finish) == "tool_use"@ <==> finish == Some("tool_calls"@),
        stop_reason(finish) == "max_tokens"@ <==> finish == Some("length"@),
        stop_reason(finish) == "end_turn"@ <==> finish != Some("tool_calls"@) && finish != Some(
            "length"@,
        ),
{
    reveal_strlit("tool_use");
    reveal_strlit("max_tokens");
    reveal_strlit("end_turn");
    reveal_strlit("tool_calls");
    reveal_strlit("length");
    assert("tool_use"@.len() == 8 && "max_tokens"@.len() == 10 && "end_turn"@.len() == 8);
    assert("tool_use"@[0] == 't' && "end_turn"@[0] == 'e');
    assert("tool_calls"@.len() == 10 && "length"@.len() == 6);
}

} // verus!
