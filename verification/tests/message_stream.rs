//! The events of a streamed message.

use loop_guard::anthropic_stream::AnthropicStreamState;
use loop_guard::json::Json;
use loop_guard::wire::parse_text;

fn json(s: &str) -> Json {
    parse_text(s).unwrap()
}

fn state() -> AnthropicStreamState {
    AnthropicStreamState::new("msg-1".to_string(), "m".to_string())
}

fn start(index: usize, block: &str) -> String {
    format!(
        "event: content_block_start\ndata: {{\"content_block\":{block},\"index\":{index},\"type\":\"content_block_start\"}}\n\n"
    )
}

fn delta(index: usize, piece: &str) -> String {
    format!(
        "event: content_block_delta\ndata: {{\"delta\":{piece},\"index\":{index},\"type\":\"content_block_delta\"}}\n\n"
    )
}

fn stop(index: usize) -> String {
    format!(
        "event: content_block_stop\ndata: {{\"index\":{index},\"type\":\"content_block_stop\"}}\n\n"
    )
}

fn end(reason: &str, tokens: usize) -> Vec<String> {
    vec![
        format!(
            "event: message_delta\ndata: {{\"delta\":{{\"stop_reason\":\"{reason}\",\"stop_sequence\":null}},\
             \"type\":\"message_delta\",\"usage\":{{\"output_tokens\":{tokens}}}}}\n\n"
        ),
        "event: message_stop\ndata: {\"type\":\"message_stop\"}\n\n".to_string(),
    ]
}

const THINKING: &str = "{\"thinking\":\"\",\"type\":\"thinking\"}";
const TEXT: &str = "{\"text\":\"\",\"type\":\"text\"}";

#[test]
fn a_message_is_announced() {
    assert_eq!(
        state().message_start_event(),
        "event: message_start\ndata: {\"message\":{\"content\":[],\"id\":\"msg-1\",\"model\":\"m\",\
         \"role\":\"assistant\",\"stop_reason\":null,\"stop_sequence\":null,\"type\":\"message\",\
         \"usage\":{\"input_tokens\":0,\"output_tokens\":0}},\"type\":\"message_start\"}\n\n"
    );
}

#[test]
fn thought_and_text_get_blocks_of_their_own() {
    let mut state = state();
    assert_eq!(
        state.feed_delta(&json("{\"reasoning_content\":\"hm\"}")),
        vec![start(0, THINKING), delta(0, "{\"thinking\":\"hm\",\"type\":\"thinking_delta\"}")]
    );
    assert_eq!(
        state.feed_delta(&json("{\"reasoning_content\":\"m\"}")),
        vec![delta(0, "{\"thinking\":\"m\",\"type\":\"thinking_delta\"}")]
    );
    assert_eq!(
        state.feed_delta(&json("{\"content\":\"ok\"}")),
        vec![stop(0), start(1, TEXT), delta(1, "{\"text\":\"ok\",\"type\":\"text_delta\"}")]
    );
    let mut expected = vec![stop(1)];
    expected.extend(end("end_turn", 2));
    assert_eq!(state.finish(None), expected);
}

#[test]
fn one_delta_may_hold_everything() {
    let mut state = state();
    let events = state.feed_delta(&json(
        "{\"reasoning_content\":\"a\",\"content\":\"b\",\"tool_calls\":[{\"id\":\"c\",\"function\":{\"name\":\"n\",\"arguments\":\"{}\"}}]}",
    ));
    assert_eq!(
        events,
        vec![
            start(0, THINKING),
            delta(0, "{\"thinking\":\"a\",\"type\":\"thinking_delta\"}"),
            stop(0),
            start(1, TEXT),
            delta(1, "{\"text\":\"b\",\"type\":\"text_delta\"}"),
            stop(1),
            start(2, "{\"id\":\"c\",\"input\":{},\"name\":\"n\",\"type\":\"tool_use\"}"),
            delta(2, "{\"partial_json\":\"{}\",\"type\":\"input_json_delta\"}"),
        ]
    );
}

fn tool(id: &str, name: &str) -> String {
    format!("{{\"id\":\"{id}\",\"input\":{{}},\"name\":\"{name}\",\"type\":\"tool_use\"}}")
}

fn input(index: usize, arguments: &str) -> String {
    delta(index, &format!("{{\"partial_json\":\"{arguments}\",\"type\":\"input_json_delta\"}}"))
}

#[test]
fn tool_calls_are_told_apart_by_their_index() {
    let mut state = state();
    let first = state.feed_delta(&json(
        "{\"tool_calls\":[{\"index\":0,\"id\":\"a\",\"function\":{\"name\":\"x\",\"arguments\":\"\"}},{\"index\":1,\"id\":\"b\",\"function\":{\"name\":\"y\"}}]}",
    ));
    assert_eq!(first, vec![start(0, &tool("a", "x")), stop(0), start(1, &tool("b", "y"))]);
    let more = state.feed_delta(&json(
        "{\"tool_calls\":[{\"index\":1,\"function\":{\"arguments\":\"{1\"}},{\"index\":1,\"function\":{\"arguments\":\"}\"}}]}",
    ));
    assert_eq!(more, vec![input(1, "{1"), input(1, "}")]);
    let mut expected = vec![stop(1)];
    expected.extend(end("tool_use", 0));
    assert_eq!(state.finish(Some("tool_calls")), expected);
}

#[test]
fn late_arguments_get_a_block_of_their_own() {
    let mut state = state();
    state.feed_delta(&json(
        "{\"tool_calls\":[{\"index\":0,\"id\":\"a\",\"function\":{\"name\":\"x\",\"arguments\":\"{\"}}]}",
    ));
    assert_eq!(
        state.feed_delta(&json("{\"content\":\"t\"}")),
        vec![stop(0), start(1, TEXT), delta(1, "{\"text\":\"t\",\"type\":\"text_delta\"}")]
    );
    assert_eq!(
        state.feed_delta(&json("{\"tool_calls\":[{\"index\":0,\"function\":{\"arguments\":\"}\"}}]}")),
        vec![stop(1), start(2, &tool("a", "x")), input(2, "}")]
    );
    // A piece that brings nothing opens nothing.
    state.feed_delta(&json("{\"content\":\"t\"}"));
    assert!(state.feed_delta(&json("{\"tool_calls\":[{\"index\":0}]}")).is_empty());
}

#[test]
fn a_tool_block_waits_for_its_name() {
    let mut state = state();
    let nameless = "{\"tool_calls\":[{\"index\":0,\"id\":\"c0\",\"function\":{\"arguments\":\"\"}}]}";
    assert!(state.feed_delta(&json(nameless)).is_empty());
    let early = "{\"tool_calls\":[{\"index\":0,\"function\":{\"name\":\"\",\"arguments\":\"{1\"}}]}";
    assert!(state.feed_delta(&json(early)).is_empty());
    let named = "{\"tool_calls\":[{\"index\":0,\"function\":{\"name\":\"n\",\"arguments\":\"}\"}}]}";
    assert_eq!(state.feed_delta(&json(named)), vec![start(0, &tool("c0", "n")), input(0, "{1}")]);
    assert_eq!(
        state.feed_delta(&json("{\"tool_calls\":[{\"function\":{\"arguments\":\"!\"}}]}")),
        vec![input(0, "!")]
    );
}

#[test]
fn a_call_without_a_name_is_not_part_of_the_message() {
    let mut state = state();
    state.feed_delta(&json("{\"tool_calls\":[{\"id\":\"c\",\"function\":{\"arguments\":\"{}\"}}]}"));
    assert_eq!(state.finish(None), end("end_turn", 0));
}

#[test]
fn nothing_is_lost_over_a_stream() {
    let mut state = state();
    let deltas = [
        "{\"reasoning_content\":\"a\",\"content\":\"1\"}",
        "{\"tool_calls\":[{\"index\":3,\"function\":{\"arguments\":\"x\"}}]}",
        "{\"reasoning_content\":\"b\"}",
        "{\"tool_calls\":[{\"index\":3,\"function\":{\"name\":\"n\",\"arguments\":\"y\"}}],\"content\":\"2\"}",
        "{\"tool_calls\":[{\"index\":3,\"function\":{\"arguments\":\"z\"}}]}",
    ];
    let mut events = Vec::new();
    for d in deltas {
        events.extend(state.feed_delta(&json(d)));
    }
    events.extend(state.finish(None));
    let mut open: Option<usize> = None;
    let (mut thought, mut said, mut called) = (String::new(), String::new(), String::new());
    for event in &events {
        let data = json(event.lines().nth(1).unwrap().strip_prefix("data: ").unwrap());
        let index = data.get("index").and_then(|i| i.as_u64()).map(|i| i as usize);
        match data.get_str("type").unwrap() {
            "content_block_start" => {
                assert_eq!(open, None);
                open = index;
            }
            "content_block_stop" => {
                assert_eq!(open, index);
                open = None;
            }
            "content_block_delta" => {
                assert_eq!(open, index);
                let piece = data.get("delta").unwrap();
                thought.push_str(&piece.get_str_or("thinking", ""));
                said.push_str(&piece.get_str_or("text", ""));
                called.push_str(&piece.get_str_or("partial_json", ""));
            }
            _ => assert_eq!(open, None),
        }
    }
    assert_eq!((thought.as_str(), said.as_str(), called.as_str()), ("ab", "12", "xyz"));
}

#[test]
fn empty_deltas_say_nothing() {
    let mut state = state();
    assert!(state.feed_delta(&json("{\"content\":\"\",\"reasoning_content\":\"\"}")).is_empty());
    assert!(state.feed_delta(&json("null")).is_empty());
    assert!(state.feed_delta(&json("{\"role\":\"assistant\",\"content\":null}")).is_empty());
    assert_eq!(state.finish(Some("length")), end("max_tokens", 0));
}

#[test]
fn output_is_counted_in_bytes() {
    let mut state = state();
    state.feed_delta(&json("{\"content\":\"\u{e9}\u{e9}x\"}"));
    let mut expected = vec![stop(0)];
    expected.extend(end("end_turn", 2));
    assert_eq!(state.finish(Some("stop")), expected);
}

#[test]
fn blocks_are_numbered_in_order() {
    let mut state = state();
    let mut starts = Vec::new();
    for d in ["{\"content\":\"a\"}", "{\"reasoning_content\":\"b\"}", "{\"content\":\"c\",\"tool_calls\":[{\"function\":{\"name\":\"n\"}}]}"] {
        for event in state.feed_delta(&json(d)) {
            let data = json(event.lines().nth(1).unwrap().strip_prefix("data: ").unwrap());
            if data.get_str("type") == Some("content_block_start") {
                starts.push(data.get("index").unwrap().as_u64().unwrap());
            }
        }
    }
    assert_eq!(starts, vec![0, 1, 2, 3]);
}
