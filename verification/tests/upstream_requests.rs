//! What is asked of the model server, and how its replies are read.

use loop_guard::endpoints::{
    answer_message, answer_messages, chat_unreachable, count_tokens, count_tokens_in,
    messages_unreachable,
    plan_chat, plan_chat_request, plan_messages, plan_messages_request, request_id, Plan, Reply,
};
use loop_guard::json::Json;
use loop_guard::upstream::{
    current_processing_slot, delta_in, finish_reason_in, make_closing_text,
    make_completion_request, make_template_request, prompt_in, trace_piece_of,
};
use loop_guard::wire::{parse_text, to_text};

fn json(s: &str) -> Json {
    parse_text(s).unwrap()
}

fn shape(plan: Plan) -> (&'static str, u16, String) {
    match plan {
        Plan::Reject(reply) => ("reject", reply.status, reply.body),
        Plan::Relay(body) => ("relay", 0, body),
        Plan::Stream(body) => ("stream", 0, to_text(&body)),
    }
}

fn parts(reply: Reply) -> (u16, String) {
    (reply.status, reply.body)
}

#[test]
fn the_one_busy_slot_is_named() {
    let slot = |s: &str| current_processing_slot(&json(s));
    assert_eq!(slot("[{\"id\":0,\"is_processing\":false},{\"id\":3,\"is_processing\":true}]"), Some(3));
    assert_eq!(slot("[{\"id\":-1,\"is_processing\":true}]"), Some(-1));
}

#[test]
fn ambiguous_slots_name_none() {
    let slot = |s: &str| current_processing_slot(&json(s));
    assert_eq!(slot("[]"), None);
    assert_eq!(slot("{}"), None);
    assert_eq!(slot("[{\"id\":0},{\"id\":1,\"is_processing\":\"true\"}]"), None);
    assert_eq!(slot("[{\"id\":0,\"is_processing\":true},{\"id\":1,\"is_processing\":true}]"), None);
    assert_eq!(slot("[{\"is_processing\":true},{\"id\":1,\"is_processing\":true}]"), None);
    assert_eq!(slot("[{\"is_processing\":true}]"), None);
}

#[test]
fn chunks_are_read() {
    let chunk = json("{\"choices\":[{\"delta\":{\"content\":\"x\"},\"finish_reason\":\"stop\"}]}");
    assert_eq!(to_text(&delta_in(&chunk)), "{\"content\":\"x\"}");
    assert_eq!(finish_reason_in(&chunk), Some("stop".to_string()));
    let bare = json("{\"choices\":[]}");
    assert_eq!(to_text(&delta_in(&bare)), "null");
    assert_eq!(finish_reason_in(&bare), None);
    assert_eq!(finish_reason_in(&json("{\"choices\":[{\"finish_reason\":null}]}")), None);
}

#[test]
fn thought_goes_before_text_in_the_trace() {
    assert_eq!(trace_piece_of(&json("{\"reasoning_content\":\"a\",\"content\":\"b\"}")), "a");
    assert_eq!(trace_piece_of(&json("{\"reasoning_content\":\"\",\"content\":\"b\"}")), "");
    assert_eq!(trace_piece_of(&json("{\"reasoning_content\":null,\"content\":\"b\"}")), "b");
    assert_eq!(trace_piece_of(&json("null")), "");
}

#[test]
fn the_prompt_is_asked_for_and_read() {
    assert_eq!(to_text(&make_template_request(&json("[1]"))), "{\"messages\":[1]}");
    assert_eq!(prompt_in(&json("{\"prompt\":\"p\"}")), Some("p".to_string()));
    assert_eq!(prompt_in(&json("{\"prompt\":1}")), None);
}

#[test]
fn a_thought_is_closed_with_the_nudge() {
    assert_eq!(
        make_closing_text("the color is wrong. "),
        "\n\n(loop-guard: repetition detected - you were restating an earlier point instead of \
         making progress. Stop analyzing further and commit to your best answer now, using \
         whatever you've already found.)\n(the point you were restating: \"the color is wrong. \")\n\
         </think>\n\n"
    );
    assert_ne!(make_closing_text("one"), make_closing_text("two"));
    assert!(make_closing_text(&"x".repeat(200)).contains(&format!("\"{}\"", "x".repeat(160))));
}

#[test]
fn the_continuation_keeps_the_sampling_parameters() {
    assert_eq!(
        to_text(&make_completion_request("p", &json("{}"), None)),
        "{\"n_predict\":4096,\"prompt\":\"p\",\"stream\":true}"
    );
    let body = "{\"max_tokens\":50,\"temperature\":0.5,\"top_p\":1,\"top_k\":2,\"min_p\":0,\"presence_penalty\":null,\"seed\":1}";
    assert_eq!(
        to_text(&make_completion_request("p", &json(body), Some(2))),
        "{\"id_slot\":2,\"min_p\":0,\"n_predict\":50,\"presence_penalty\":null,\"prompt\":\"p\",\
         \"stream\":true,\"temperature\":0.5,\"top_k\":2,\"top_p\":1}"
    );
    assert_eq!(
        to_text(&make_completion_request("p", &json("{\"max_tokens\":1.5}"), None)),
        "{\"n_predict\":4096,\"prompt\":\"p\",\"stream\":true}"
    );
}

#[test]
fn chat_requests_are_sorted() {
    assert_eq!(
        shape(plan_chat(b"{nope")),
        ("reject", 400, "{\"error\":\"loop-guard: invalid JSON body\"}".to_string())
    );
    assert_eq!(
        shape(plan_chat(b"{ \"model\" : \"m\" }")),
        ("relay", 0, "{\"model\":\"m\"}".to_string())
    );
    assert_eq!(
        shape(plan_chat(b"{\"temperature\":0.10,\"top_p\":1e-7}")),
        ("relay", 0, "{\"temperature\":0.1,\"top_p\":1e-7}".to_string())
    );
    assert_eq!(
        shape(plan_chat(b"{\"stream\":\"true\"}")),
        ("relay", 0, "{\"stream\":\"true\"}".to_string())
    );
    assert_eq!(
        shape(plan_chat(b"{\"stream\":true}")),
        ("stream", 0, "{\"stream\":true}".to_string())
    );
    assert_eq!(shape(plan_chat_request(None)).1, 400);
}

#[test]
fn messages_requests_are_sorted() {
    assert_eq!(
        shape(plan_messages(b"", "m")),
        (
            "reject",
            400,
            "{\"error\":{\"message\":\"loop-guard: invalid JSON body\",\"type\":\"invalid_request_error\"}}".to_string()
        )
    );
    let relayed = shape(plan_messages(b"{}", "m"));
    assert_eq!(relayed.0, "relay");
    assert!(relayed.2.contains("\"model\":\"m\""));
    let streamed = shape(plan_messages(b"{\"stream\":true,\"model\":\"other\"}", "m"));
    assert_eq!(streamed.0, "stream");
    assert!(streamed.2.contains("\"model\":\"m\"") && streamed.2.contains("\"stream\":true"));
    assert_eq!(shape(plan_messages_request(None, "m")).1, 400);
}

#[test]
fn answers_are_translated_or_refused() {
    let error = "{\"error\":{\"message\":\"loop-guard: upstream error\",\"type\":\"api_error\"}}";
    let good = answer_messages(true, Some(b"{\"id\":\"r\"}"), "m");
    assert_eq!(good.status, 200);
    assert!(good.body.contains("\"id\":\"r\"") && good.body.contains("\"type\":\"message\""));
    assert_eq!(parts(answer_messages(false, Some(b"{}"), "m")), (502, error.to_string()));
    assert_eq!(parts(answer_messages(true, Some(b"oops"), "m")), (502, error.to_string()));
    assert_eq!(parts(answer_messages(true, None, "m")), (502, error.to_string()));
    assert_eq!(answer_message(true, Some(json("{}")), "m").status, 200);
}

#[test]
fn unreachable_servers_are_reported() {
    assert_eq!(
        parts(chat_unreachable()),
        (502, "{\"error\":\"loop-guard: upstream unreachable\"}".to_string())
    );
    assert_eq!(
        parts(messages_unreachable()),
        (
            502,
            "{\"error\":{\"message\":\"loop-guard: upstream unreachable\",\"type\":\"api_error\"}}".to_string()
        )
    );
}

#[test]
fn counted_tokens_are_answered() {
    assert_eq!(
        parts(count_tokens(&json("{\"system\":\"abcde\"}"))),
        (200, "{\"input_tokens\":2}".to_string())
    );
    assert_eq!(
        count_tokens_in(b"{\"system\":\"abcde\"}").map(parts),
        Some((200, "{\"input_tokens\":2}".to_string()))
    );
    assert!(count_tokens_in(b"abcde").is_none());
}

#[test]
fn requests_are_numbered() {
    assert_eq!(request_id(0), "req-0");
    assert_eq!(request_id(u64::MAX), "req-18446744073709551615");
}
