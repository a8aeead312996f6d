//! Translation between the Messages API and chat completions.

use loop_guard::anthropic::{
    anthropic_to_openai_request, convert_message, estimate_from_sizes, estimate_input_tokens, input_text,
    make_tool_call, make_tool_use_block, map_stop_reason, openai_response_to_anthropic,
    thinking_enabled,
};
use loop_guard::json::Json;
use loop_guard::wire::{parse_text, to_text};

fn json(s: &str) -> Json {
    parse_text(s).unwrap()
}

fn messages(body: &str) -> String {
    let request = anthropic_to_openai_request(&json(body), "m");
    to_text(request.get("messages").unwrap())
}

fn field(body: &str, key: &str) -> Option<String> {
    anthropic_to_openai_request(&json(body), "m").get(key).map(to_text)
}

#[test]
fn thinking_is_asked_for_by_type() {
    assert!(thinking_enabled(&json("{\"thinking\":{\"type\":\"enabled\"}}")));
    assert!(!thinking_enabled(&json("{\"thinking\":{\"type\":\"disabled\"}}")));
    assert!(!thinking_enabled(&json("{\"thinking\":\"enabled\"}")));
    assert!(!thinking_enabled(&json("{}")));
}

#[test]
fn a_bare_request_gets_defaults() {
    assert_eq!(
        to_text(&anthropic_to_openai_request(&json("{}"), "m")),
        "{\"chat_template_kwargs\":{\"enable_thinking\":false},\"messages\":[],\"min_p\":0,\
         \"model\":\"m\",\"presence_penalty\":1.5,\"stream\":false,\"temperature\":0.7,\
         \"top_k\":20,\"top_p\":0.8}"
    );
}

#[test]
fn a_thinking_request_is_sampled_differently() {
    assert_eq!(
        to_text(&anthropic_to_openai_request(
            &json("{\"thinking\":{\"type\":\"enabled\"},\"stream\":true,\"max_tokens\":9}"),
            "m"
        )),
        "{\"max_tokens\":9,\"messages\":[],\"min_p\":0,\"model\":\"m\",\
         \"presence_penalty\":1.0,\"stream\":true,\"temperature\":0.6,\
         \"top_k\":20,\"top_p\":0.95}"
    );
}

#[test]
fn the_system_prompt_comes_first() {
    assert_eq!(
        messages("{\"system\":\"be brief\",\"messages\":[{\"role\":\"user\",\"content\":\"hi\"}]}"),
        "[{\"content\":\"be brief\",\"role\":\"system\"},{\"content\":\"hi\",\"role\":\"user\"}]"
    );
    assert_eq!(
        messages("{\"system\":[{\"text\":\"a\"},{\"x\":1},{\"type\":\"other\",\"text\":\"b\"}]}"),
        "[{\"content\":\"a\\nb\",\"role\":\"system\"}]"
    );
    assert_eq!(messages("{\"system\":\"\"}"), "[]");
    assert_eq!(messages("{\"system\":[{\"text\":\"\"}]}"), "[]");
    assert_eq!(messages("{\"system\":5}"), "[]");
}

#[test]
fn plain_messages_keep_their_role() {
    assert_eq!(
        messages("{\"messages\":[{\"role\":\"developer\",\"content\":\"x\"},{\"content\":\"y\"}]}"),
        "[{\"content\":\"x\",\"role\":\"developer\"},{\"content\":\"y\",\"role\":\"user\"}]"
    );
    assert_eq!(
        messages("{\"messages\":[{\"role\":\"user\",\"content\":\"\"},{\"role\":\"user\"},{\"role\":\"user\",\"content\":7}]}"),
        "[]"
    );
}

#[test]
fn tool_results_become_messages_before_the_text() {
    let body = "{\"messages\":[{\"role\":\"user\",\"content\":[\
        {\"type\":\"text\",\"text\":\"one\"},\
        {\"type\":\"tool_result\",\"tool_use_id\":\"t1\",\"content\":\"plain\"},\
        {\"type\":\"text\",\"text\":\"two\"},\
        {\"type\":\"tool_result\",\"tool_use_id\":\"t2\",\"content\":[{\"type\":\"text\",\"text\":\"a\"},{\"type\":\"image\",\"text\":\"no\"},{\"type\":\"text\",\"text\":\"b\"}]},\
        {\"type\":\"tool_result\"},\
        {\"type\":\"tool_result\",\"tool_use_id\":\"t3\",\"content\":{\"k\":1}},\
        {\"type\":\"tool_use\",\"id\":\"ignored\"}]}]}";
    assert_eq!(
        messages(body),
        "[{\"content\":\"plain\",\"role\":\"tool\",\"tool_call_id\":\"t1\"},\
         {\"content\":\"a\\nb\",\"role\":\"tool\",\"tool_call_id\":\"t2\"},\
         {\"content\":\"\",\"role\":\"tool\",\"tool_call_id\":\"\"},\
         {\"content\":\"{\\\"k\\\":1}\",\"role\":\"tool\",\"tool_call_id\":\"t3\"},\
         {\"content\":\"one\\ntwo\",\"role\":\"user\"}]"
    );
}

#[test]
fn assistant_messages_carry_their_tool_calls() {
    let body = "{\"messages\":[{\"role\":\"assistant\",\"content\":[\
        {\"type\":\"tool_use\",\"id\":\"c1\",\"name\":\"grep\",\"input\":{\"q\":\"x\"}},\
        {\"type\":\"tool_use\"},\
        {\"type\":\"tool_result\",\"tool_use_id\":\"ignored\",\"content\":\"x\"}]}]}";
    assert_eq!(
        messages(body),
        "[{\"content\":null,\"role\":\"assistant\",\"tool_calls\":[\
         {\"function\":{\"arguments\":\"{\\\"q\\\":\\\"x\\\"}\",\"name\":\"grep\"},\"id\":\"c1\",\"type\":\"function\"},\
         {\"function\":{\"arguments\":\"{}\",\"name\":\"\"},\"id\":\"\",\"type\":\"function\"}]}]"
    );
    assert_eq!(
        messages("{\"messages\":[{\"role\":\"assistant\",\"content\":[{\"type\":\"text\",\"text\":\"done\"}]}]}"),
        "[{\"content\":\"done\",\"role\":\"assistant\"}]"
    );
    assert_eq!(messages("{\"messages\":[{\"role\":\"assistant\",\"content\":[]}]}"), "[]");
}

#[test]
fn block_messages_of_other_roles_speak_as_the_user() {
    assert_eq!(
        messages("{\"messages\":[{\"role\":\"system\",\"content\":[{\"type\":\"text\",\"text\":\"x\"},{\"type\":\"tool_result\"}]}]}"),
        "[{\"content\":\"x\",\"role\":\"user\"}]"
    );
}

#[test]
fn tools_are_translated() {
    assert_eq!(
        field("{\"tools\":[{\"name\":\"n\",\"description\":\"d\",\"input_schema\":{\"type\":\"object\"}},{}]}", "tools").unwrap(),
        "[{\"function\":{\"description\":\"d\",\"name\":\"n\",\"parameters\":{\"type\":\"object\"}},\"type\":\"function\"},\
         {\"function\":{\"description\":\"\",\"name\":\"\",\"parameters\":{\"properties\":{},\"type\":\"object\"}},\"type\":\"function\"}]"
    );
    assert_eq!(field("{\"tools\":[]}", "tools"), None);
    assert_eq!(field("{\"tools\":{}}", "tools"), None);
}

#[test]
fn the_choice_of_tools_is_translated() {
    let choice = |tc: &str| field(&format!("{{\"tool_choice\":{tc}}}"), "tool_choice");
    assert_eq!(choice("{\"type\":\"auto\"}").unwrap(), "\"auto\"");
    assert_eq!(choice("{\"type\":\"none\"}").unwrap(), "\"none\"");
    assert_eq!(choice("{\"type\":\"any\"}").unwrap(), "\"required\"");
    assert_eq!(
        choice("{\"type\":\"tool\",\"name\":\"n\"}").unwrap(),
        "{\"function\":{\"name\":\"n\"},\"type\":\"function\"}"
    );
    assert_eq!(choice("{\"type\":\"other\"}"), None);
    assert_eq!(choice("\"auto\""), None);
}

#[test]
fn tokens_are_a_quarter_of_the_characters_rounded_up() {
    assert_eq!(estimate_input_tokens(&json("{}")), 0);
    assert_eq!(estimate_input_tokens(&json("{\"system\":\"abcde\"}")), 2);
    assert_eq!(estimate_input_tokens(&json("{\"system\":\"\u{e9}\u{e9}\"}")), 1);
    assert_eq!(estimate_input_tokens(&json("{\"system\":\"\u{e9}\u{e9}\u{e9}\u{e9}\"}")), 1);
    assert_eq!(estimate_input_tokens(&json("{\"messages\":[\"\u{e9}\u{e9}\u{e9}\u{e9}\"]}")), 2);
    // [] is two characters, {"a":1} is seven.
    assert_eq!(estimate_input_tokens(&json("{\"messages\":[],\"tools\":{\"a\":1}}")), 3);
    assert_eq!(estimate_input_tokens(&json("{\"messages\":\"not a list\"}")), 0);
    assert_eq!(estimate_from_sizes(0, 0, 0), 0);
    assert_eq!(estimate_from_sizes(1, 2, 1), 1);
    assert_eq!(estimate_from_sizes(2, 2, 1), 2);
}

#[test]
fn stop_reasons_are_mapped() {
    assert_eq!(map_stop_reason(Some("tool_calls")), "tool_use");
    assert_eq!(map_stop_reason(Some("length")), "max_tokens");
    assert_eq!(map_stop_reason(Some("stop")), "end_turn");
    assert_eq!(map_stop_reason(None), "end_turn");
}

#[test]
fn a_complete_response_becomes_a_message() {
    let resp = "{\"id\":\"r1\",\"choices\":[{\"finish_reason\":\"tool_calls\",\"message\":{\
        \"reasoning_content\":\"hm\",\"content\":\"ok\",\"tool_calls\":[\
        {\"id\":\"c1\",\"function\":{\"name\":\"grep\",\"arguments\":\"{\\\"q\\\":1}\"}},\
        {\"function\":{\"arguments\":\"not json\"}},{}]}}],\
        \"usage\":{\"prompt_tokens\":3,\"completion_tokens\":4}}";
    assert_eq!(
        to_text(&openai_response_to_anthropic(&json(resp), "m")),
        "{\"content\":[{\"thinking\":\"hm\",\"type\":\"thinking\"},{\"text\":\"ok\",\"type\":\"text\"},\
         {\"id\":\"c1\",\"input\":{\"q\":1},\"name\":\"grep\",\"type\":\"tool_use\"},\
         {\"id\":\"\",\"input\":{},\"name\":\"\",\"type\":\"tool_use\"},\
         {\"id\":\"\",\"input\":{},\"name\":\"\",\"type\":\"tool_use\"}],\
         \"id\":\"r1\",\"model\":\"m\",\"role\":\"assistant\",\"stop_reason\":\"tool_use\",\
         \"stop_sequence\":null,\"type\":\"message\",\"usage\":{\"input_tokens\":3,\"output_tokens\":4}}"
    );
}

#[test]
fn an_empty_response_becomes_an_empty_message() {
    assert_eq!(
        to_text(&openai_response_to_anthropic(&json("[]"), "m")),
        "{\"content\":[],\"id\":\"msg_local\",\"model\":\"m\",\"role\":\"assistant\",\
         \"stop_reason\":\"end_turn\",\"stop_sequence\":null,\"type\":\"message\",\
         \"usage\":{\"input_tokens\":0,\"output_tokens\":0}}"
    );
}

#[test]
fn tool_calls_survive_the_round_trip() {
    let body = "{\"messages\":[{\"role\":\"assistant\",\"content\":[\
        {\"type\":\"tool_use\",\"id\":\"c1\",\"name\":\"grep\",\"input\":{\"list\":[1,\"x\"]}}]}]}";
    let request = anthropic_to_openai_request(&json(body), "m");
    let message = request.get_array("messages").unwrap()[0].duplicate();
    let choice = Json::Object(vec![("message".to_string(), message)]);
    let resp = Json::Object(vec![("choices".to_string(), Json::Array(vec![choice]))]);
    let back = openai_response_to_anthropic(&resp, "m");
    assert_eq!(
        to_text(back.get("content").unwrap()),
        "[{\"id\":\"c1\",\"input\":{\"list\":[1,\"x\"]},\"name\":\"grep\",\"type\":\"tool_use\"}]"
    );
}

#[test]
fn tool_calls_are_built_from_parts() {
    let block = json("{\"id\":\"c\",\"name\":\"n\",\"input\":[2,1]}");
    assert_eq!(input_text(&block), "[2,1]");
    assert_eq!(input_text(&json("{}")), "{}");
    let call = make_tool_call(&block, "args");
    assert_eq!(
        to_text(&call),
        "{\"function\":{\"arguments\":\"args\",\"name\":\"n\"},\"id\":\"c\",\"type\":\"function\"}"
    );
    assert_eq!(
        to_text(&make_tool_use_block(&call, Some(json("7")))),
        "{\"id\":\"c\",\"input\":7,\"name\":\"n\",\"type\":\"tool_use\"}"
    );
    assert_eq!(
        to_text(&make_tool_use_block(&call, None)),
        "{\"id\":\"c\",\"input\":{},\"name\":\"n\",\"type\":\"tool_use\"}"
    );
}

#[test]
fn other_blocks_leave_no_trace() {
    let with = "{\"messages\":[{\"role\":\"assistant\",\"content\":[{\"type\":\"thinking\",\"thinking\":\"t\"},{\"type\":\"text\",\"text\":\"x\"},{\"type\":\"image\"},{\"type\":\"tool_result\",\"content\":\"r\"},7]}]}";
    let without = "{\"messages\":[{\"role\":\"assistant\",\"content\":[{\"type\":\"text\",\"text\":\"x\"}]}]}";
    assert_eq!(messages(with), messages(without));
}

#[test]
fn a_whole_turn_survives_the_round_trip() {
    let blocks = "[{\"text\":\"look\",\"type\":\"text\"},\
        {\"id\":\"a\",\"input\":{\"q\":[1]},\"name\":\"x\",\"type\":\"tool_use\"},\
        {\"id\":\"b\",\"input\":null,\"name\":\"y\",\"type\":\"tool_use\"}]";
    let body = format!("{{\"messages\":[{{\"role\":\"assistant\",\"content\":{blocks}}}]}}");
    let request = anthropic_to_openai_request(&json(&body), "m");
    let turn = request.get_array("messages").unwrap();
    assert_eq!(turn.len(), 1);
    let resp = json(&format!("{{\"choices\":[{{\"message\":{}}}]}}", to_text(&turn[0])));
    let back = openai_response_to_anthropic(&resp, "m");
    assert_eq!(to_text(back.get("content").unwrap()), blocks);
}

#[test]
fn messages_are_appended_to_those_before() {
    let mut out = vec![json("1")];
    convert_message("user", &json("\"hi\""), &mut out);
    convert_message("user", &json("[{\"type\":\"image\"}]"), &mut out);
    convert_message("assistant", &json("[{\"type\":\"text\",\"text\":\"yo\"}]"), &mut out);
    let texts: Vec<String> = out.iter().map(to_text).collect();
    assert_eq!(
        texts,
        vec![
            "1",
            "{\"content\":\"hi\",\"role\":\"user\"}",
            "{\"content\":\"yo\",\"role\":\"assistant\"}"
        ]
    );
}
