//! JSON and server-sent events on the wire.

use loop_guard::json::{text, Json};
use loop_guard::sse::{
    data_frame, done_frame, extract_sse_payloads, holds_end_marker, is_end_line, make_chat_chunk,
    sse_event,
};
use loop_guard::wire::{parse_bytes, parse_text, to_text};

fn json(s: &str) -> Json {
    parse_text(s).unwrap()
}

#[test]
fn json_text_is_compact_and_sorted() {
    let value = json("{ \"b\" : [1, -2, 2.5, true, null], \"a\": \"x\\ny\" }");
    assert_eq!(to_text(&value), "{\"a\":\"x\\ny\",\"b\":[1,-2,2.5,true,null]}");
}

#[test]
fn json_survives_text() {
    let source = "{\"a\":[18446744073709551615,-9223372036854775808,\"\\u0001\\\"\"],\"b\":{}}";
    assert_eq!(to_text(&json(source)), source);
    assert_eq!(to_text(&parse_bytes(source.as_bytes()).unwrap()), source);
}

#[test]
fn nesting_is_read_up_to_the_limit() {
    let nested = |depth: usize| format!("{}{}", "[".repeat(depth), "]".repeat(depth));
    let deep = nested(127);
    assert_eq!(to_text(&json(&deep)), deep);
    assert!(parse_text(&nested(128)).is_none());
}

#[test]
fn what_is_no_json_is_not_parsed() {
    assert!(parse_text("").is_none());
    assert!(parse_text("{\"a\":}").is_none());
    assert!(parse_text("[DONE]").is_none());
    assert!(parse_bytes(&[0x22, 0xff, 0x22]).is_none());
}

#[test]
fn the_last_of_equal_keys_counts() {
    let value = json("{\"a\":1,\"a\":2}");
    assert_eq!(value.get("a").unwrap().as_u64(), Some(2));
    let entries = vec![("k".to_string(), text("old")), ("k".to_string(), text("new"))];
    let object = Json::Object(entries);
    assert_eq!(object.get_str("k"), Some("new"));
    assert_eq!(to_text(&object), "{\"k\":\"new\"}");
}

#[test]
fn integers_are_read_by_range() {
    let value = json("[9223372036854775807, 9223372036854775808, -1, 1.5, \"1\"]");
    let at = |i: usize| value.get_index(i).unwrap();
    assert_eq!((at(0).as_u64(), at(0).as_i64()), (Some(9223372036854775807), Some(i64::MAX)));
    assert_eq!((at(1).as_u64(), at(1).as_i64()), (Some(9223372036854775808), None));
    assert_eq!((at(2).as_u64(), at(2).as_i64()), (None, Some(-1)));
    assert_eq!((at(3).as_u64(), at(3).as_i64()), (None, None));
    assert_eq!((at(4).as_u64(), at(4).as_i64()), (None, None));
    assert!(value.get_index(5).is_none());
}

#[test]
fn readers_mind_the_type() {
    let value = json("{\"s\":\"x\",\"b\":true,\"l\":[1],\"n\":null}");
    assert_eq!(value.get_str("s"), Some("x"));
    assert_eq!(value.get_str("b"), None);
    assert_eq!(value.get_str_or("n", "d"), "d");
    assert_eq!(value.get_str_or("s", "d"), "x");
    assert!(value.get_flag("b"));
    assert!(!value.get_flag("s"));
    assert!(!value.get_flag("missing"));
    assert_eq!(value.get_array("l").unwrap().len(), 1);
    assert!(value.get_array("s").is_none());
    assert!(json("[1]").get("a").is_none());
    assert_eq!(to_text(&value.duplicate()), to_text(&value));
}

#[test]
fn payloads_are_cut_at_line_feeds() {
    let mut carry = String::new();
    let out = extract_sse_payloads("data: a\r\ndata: b\n: note\ndata:c\ndata: [DONE]\ndata: d", &mut carry);
    assert_eq!(out, vec!["a", "b"]);
    assert_eq!(carry, "data: d");
    assert_eq!(extract_sse_payloads("e\n", &mut carry), vec!["de"]);
    assert_eq!(carry, "");
}

#[test]
fn only_one_carriage_return_is_dropped() {
    let mut carry = String::new();
    assert_eq!(extract_sse_payloads("data: a\r\r\n", &mut carry), vec!["a\r"]);
}

#[test]
fn chunk_boundaries_do_not_matter() {
    let stream = "data: {\"a\":1}\n\nevent: x\ndata: \u{e9}\n\ndata: [DONE]\n\n";
    let mut whole = String::new();
    let all = extract_sse_payloads(stream, &mut whole);
    let mut carry = String::new();
    let mut pieces = Vec::new();
    for c in stream.chars() {
        pieces.extend(extract_sse_payloads(&c.to_string(), &mut carry));
    }
    assert_eq!(pieces, all);
    assert_eq!(all, vec!["{\"a\":1}", "\u{e9}"]);
}

#[test]
fn frames_are_read_back() {
    let value = json("{\"text\":\"two\\nlines\"}");
    let mut carry = String::new();
    let frame = data_frame(&value);
    assert_eq!(frame, "data: {\"text\":\"two\\nlines\"}\n\n");
    assert_eq!(extract_sse_payloads(&frame, &mut carry), vec![to_text(&value)]);
    assert_eq!(carry, "");
    let event = sse_event("ping", &value);
    assert_eq!(event, "event: ping\ndata: {\"text\":\"two\\nlines\"}\n\n");
    assert_eq!(extract_sse_payloads(&event, &mut carry), vec![to_text(&value)]);
    assert_eq!(done_frame(), "data: [DONE]\n\n");
}

#[test]
fn chat_chunks_have_their_fields() {
    assert_eq!(
        make_chat_chunk("id-1", "m", -5, json("{\"content\":\"hi\"}"), None),
        "data: {\"choices\":[{\"delta\":{\"content\":\"hi\"},\"finish_reason\":null,\"index\":0}],\
         \"created\":-5,\"id\":\"id-1\",\"model\":\"m\",\"object\":\"chat.completion.chunk\"}\n\n"
    );
    assert_eq!(
        make_chat_chunk("", "", 7, json("{}"), Some("stop")),
        "data: {\"choices\":[{\"delta\":{},\"finish_reason\":\"stop\",\"index\":0}],\
         \"created\":7,\"id\":\"\",\"model\":\"\",\"object\":\"chat.completion.chunk\"}\n\n"
    );
}

#[test]
fn end_markers_are_whole_lines() {
    assert!(is_end_line("data: [DONE]"));
    assert!(is_end_line("data: [DONE]\r"));
    assert!(!is_end_line("data: [DONE] "));
    assert!(!is_end_line(""));
    assert!(holds_end_marker("data: {}\n\ndata: [DONE]\r\n"));
    assert!(!holds_end_marker("data: [DONE]"));
    assert!(!holds_end_marker("data: {\"content\":\"data: [DONE]\"}\n"));
}
