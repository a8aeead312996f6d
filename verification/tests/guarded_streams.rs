//! Whole courses of guarded streams.

use loop_guard::guard::{Action, GuardStream};
use loop_guard::json::Json;
use loop_guard::tracker::Measurement;
use loop_guard::upstream::make_closing_text;
use loop_guard::wire::{parse_text, to_text};

fn json(s: &str) -> Json {
    parse_text(s).unwrap()
}

fn chat(body: &str) -> GuardStream {
    GuardStream::chat(json(body), 5, 2, "req-0".to_string())
}

fn messages(body: &str) -> GuardStream {
    GuardStream::messages(json(body), "m".to_string(), 5, 2, "req-0".to_string())
}

fn name(action: &Action) -> &'static str {
    match action {
        Action::Send(_) => "send",
        Action::Connect(_) => "connect",
        Action::NextChunk => "next chunk",
        Action::Measure => "measure",
        Action::FindSlot => "find slot",
        Action::RenderPrompt(_) => "render prompt",
        Action::Complete(_) => "complete",
        Action::NextCompletionChunk => "next completion chunk",
        Action::Finished => "finished",
    }
}

/// Everything that is to be sent, and the action behind it.
fn drain(stream: &mut GuardStream) -> (Vec<(String, bool)>, Action) {
    let mut sent = Vec::new();
    loop {
        match stream.poll() {
            Action::Send(out) => sent.push((out.text, out.vital)),
            other => return (sent, other),
        }
    }
}

fn sent(stream: &mut GuardStream) -> (Vec<(String, bool)>, &'static str) {
    let (texts, action) = drain(stream);
    (texts, name(&action))
}

fn measurement(similarities: &[u64]) -> Measurement {
    Measurement {
        similarities: similarities.to_vec(),
        rendered: similarities.iter().map(|s| format!("s{s}")).collect(),
        elapsed: "9.9".to_string(),
    }
}

fn thought(s: &str) -> String {
    format!("data: {{\"id\":\"x\",\"model\":\"q\",\"created\":7,\"choices\":[{{\"delta\":{{\"reasoning_content\":\"{s}\"}}}}]}}\n\n")
}

fn frame(delta: &str, finish: &str) -> String {
    format!(
        "data: {{\"choices\":[{{\"delta\":{delta},\"finish_reason\":{finish},\"index\":0}}],\"created\":7,\
         \"id\":\"x\",\"model\":\"q\",\"object\":\"chat.completion.chunk\"}}\n\n"
    )
}

fn vital(s: &str) -> (String, bool) {
    (s.to_string(), true)
}

fn plain(s: &str) -> (String, bool) {
    (s.to_string(), false)
}

/// A chat stream whose trace has just been found to repeat itself.
fn repeating_chat(body: &str) -> GuardStream {
    let mut stream = chat(body);
    stream.connected(true);
    let chunk = thought("alpha beta. Wait, alpha beta. Wait, ");
    stream.chunk(chunk.as_bytes());
    assert_eq!(stream.query().unwrap().step_idx, 0);
    assert_eq!(stream.measured(&measurement(&[])).unwrap().best_match_idx, None);
    assert_eq!(stream.query().unwrap().step_idx, 1);
    assert_eq!(stream.measured(&measurement(&[5])).unwrap().best_match_idx, Some(0));
    stream
}

#[test]
fn a_quiet_chat_passes_unchanged() {
    let mut stream = chat("{\"stream\":true,\"model\":\"m\"}");
    let (texts, action) = drain(&mut stream);
    assert!(texts.is_empty());
    match action {
        Action::Connect(body) => assert_eq!(body, "{\"model\":\"m\",\"stream\":true}"),
        other => panic!("{}", name(&other)),
    }
    stream.connected(true);
    assert_eq!(sent(&mut stream), (vec![], "next chunk"));
    let first = thought("alpha");
    stream.chunk(first.as_bytes());
    assert_eq!(sent(&mut stream), (vec![vital(&first)], "next chunk"));
    stream.chunk(b"data: half a li");
    assert_eq!(sent(&mut stream), (vec![vital("data: half a li")], "next chunk"));
    stream.chunk(b"ne\n\n: \xff\n\ndata: [DONE]\n\n");
    assert_eq!(
        sent(&mut stream),
        (vec![vital("ne\n\n: \u{fffd}\n\ndata: [DONE]\n\n")], "next chunk")
    );
    stream.ended();
    assert_eq!(sent(&mut stream), (vec![], "finished"));
}

#[test]
fn a_missing_end_marker_is_added() {
    let mut stream = chat("{}");
    stream.connected(true);
    stream.ended();
    assert_eq!(sent(&mut stream), (vec![plain("data: [DONE]\n\n")], "finished"));
}

#[test]
fn an_end_marker_in_pieces_is_not_doubled() {
    for chunks in [
        vec!["data: {}\n\n", "data: [DO", "NE]\n\n"],
        vec!["data: [DONE]\r\n"],
        vec!["data: [DO", "NE]"],
    ] {
        let mut stream = chat("{}");
        stream.connected(true);
        for chunk in &chunks {
            stream.chunk(chunk.as_bytes());
        }
        stream.ended();
        let expected: Vec<(String, bool)> = chunks.iter().map(|c| vital(c)).collect();
        drain_connect(&mut stream, expected);
    }
    // A marker inside a payload is none.
    let mut stream = chat("{}");
    stream.connected(true);
    stream.chunk(b"data: \"data: [DONE]\"\n\n");
    stream.ended();
    drain_connect(
        &mut stream,
        vec![vital("data: \"data: [DONE]\"\n\n"), plain("data: [DONE]\n\n")],
    );
}

fn drain_connect(stream: &mut GuardStream, expected: Vec<(String, bool)>) {
    assert_eq!(sent(stream), (expected, "finished"));
}

#[test]
fn a_character_cut_by_a_chunk_boundary_passes_whole() {
    let chunk = thought("\u{65e5}\u{672c} \u{1f600}");
    let bytes = chunk.as_bytes();
    for i in 1..bytes.len() {
        let mut stream = chat("{}");
        stream.connected(true);
        stream.chunk(&bytes[..i]);
        stream.chunk(&bytes[i..]);
        let text: String = drain(&mut stream).0.into_iter().map(|t| t.0).collect();
        assert_eq!(text, chunk);
    }
    let mut stream = chat("{}");
    stream.connected(true);
    stream.chunk(b"\xe6");
    assert_eq!(sent(&mut stream), (vec![], "next chunk"));
    stream.ended();
    assert_eq!(
        sent(&mut stream),
        (vec![vital("\u{fffd}"), plain("data: [DONE]\n\n")], "finished")
    );
}

#[test]
fn a_cut_character_reaches_the_continuation_whole() {
    let mut stream = repeating_chat("{}");
    stream.slots_listed(None);
    stream.prompt_rendered(Some(json("{\"prompt\":\"\"}")));
    drain(&mut stream);
    stream.completing(true);
    stream.completion_chunk(b"data: {\"content\":\"\xc3");
    stream.completion_chunk(b"\xa9\"}\n\n");
    assert_eq!(
        sent(&mut stream),
        (vec![vital(&frame("{\"content\":\"\u{e9}\"}", "null"))], "next completion chunk")
    );
}

#[test]
fn both_protocols_continue_alike() {
    let body = "{\"messages\":[],\"max_tokens\":3}";
    let mut requests = Vec::new();
    for mut stream in [chat(body), messages(body)] {
        stream.connected(true);
        stream.chunk(thought("alpha beta. Wait, alpha beta. Wait, ").as_bytes());
        stream.measured(&measurement(&[]));
        stream.measured(&measurement(&[5]));
        stream.slots_listed(Some(json("[{\"id\":1,\"is_processing\":true}]")));
        stream.prompt_rendered(Some(json("{\"prompt\":\"p\"}")));
        match drain(&mut stream).1 {
            Action::Complete(request) => requests.push(request),
            other => panic!("{}", name(&other)),
        }
    }
    assert_eq!(requests[0], requests[1]);
}

#[test]
fn chunks_wait_for_the_verdict() {
    let mut stream = chat("{}");
    stream.connected(true);
    let chunk = thought("alpha beta. Wait, ");
    stream.chunk(chunk.as_bytes());
    assert_eq!(sent(&mut stream), (vec![], "measure"));
    assert!(stream.measured(&measurement(&[1, 2])).is_none());
    assert_eq!(sent(&mut stream), (vec![], "measure"));
    assert!(stream.measured(&measurement(&[])).is_some());
    assert_eq!(sent(&mut stream), (vec![vital(&chunk)], "next chunk"));
    assert!(stream.query().is_none());
    assert!(stream.measured(&measurement(&[])).is_none());
}

#[test]
fn dissimilar_steps_never_cut_short() {
    let mut stream = chat("{}");
    stream.connected(true);
    let mut expected = Vec::new();
    let mut texts = Vec::new();
    for i in 0..6usize {
        let chunk = thought("alpha beta. Wait, ");
        expected.push(vital(&chunk));
        stream.chunk(chunk.as_bytes());
        assert_eq!(stream.query().unwrap().step_idx, i);
        stream.measured(&measurement(&vec![4; i]));
        texts.extend(sent(&mut stream).0);
    }
    assert_eq!(texts, expected);
    assert!(stream.reason().is_none());
}

#[test]
fn a_repetition_is_closed_by_force() {
    let mut stream = repeating_chat(
        "{\"messages\":[{\"role\":\"user\"}],\"max_tokens\":8,\"temperature\":0.5}",
    );
    assert_eq!(
        stream.reason(),
        Some("request=req-0 step 1 repeats step 0 (similarity s5, elapsed=9.9s): \"alpha beta. \"")
    );
    // Nothing of the chunk is passed on, nor of one that comes too late.
    stream.chunk(thought("late").as_bytes());
    assert_eq!(sent(&mut stream), (vec![], "find slot"));
    stream.slots_reply(Some(b"[{\"id\":4,\"is_processing\":true}]"));
    match drain(&mut stream).1 {
        Action::RenderPrompt(body) => assert_eq!(body, "{\"messages\":[{\"role\":\"user\"}]}"),
        other => panic!("{}", name(&other)),
    }
    stream.prompt_reply(Some(b"{\"prompt\":\"<user>\"}"));
    let closing = make_closing_text("alpha beta. ");
    assert!(closing.contains("alpha beta. "));
    let quoted = to_text(&Json::Text(closing.clone()));
    let (texts, action) = drain(&mut stream);
    assert_eq!(texts, vec![plain(&frame(&format!("{{\"reasoning_content\":{quoted}}}"), "null"))]);
    let prompt = format!("<user>alpha beta. Wait, alpha beta. Wait, {closing}");
    match action {
        Action::Complete(body) => assert_eq!(
            body,
            format!(
                "{{\"id_slot\":4,\"n_predict\":8,\"prompt\":{},\"stream\":true,\"temperature\":0.5}}",
                to_text(&Json::Text(prompt))
            )
        ),
        other => panic!("{}", name(&other)),
    }
    stream.completing(true);
    assert_eq!(sent(&mut stream), (vec![], "next completion chunk"));
    stream.completion_chunk(b"data: {\"content\":\"so\"}\n\ndata: {\"content\":\"\"}\n\ndata: nope\n\ndata: {\"conte");
    assert_eq!(
        sent(&mut stream),
        (vec![vital(&frame("{\"content\":\"so\"}", "null"))], "next completion chunk")
    );
    stream.completion_chunk(b"nt\":\"!\",\"stop\":true}\n\n");
    assert_eq!(
        sent(&mut stream),
        (
            vec![
                vital(&frame("{\"content\":\"!\"}", "null")),
                plain(&frame("{}", "\"stop\""))
            ],
            "next completion chunk"
        )
    );
    stream.completion_ended();
    assert_eq!(sent(&mut stream), (vec![plain("data: [DONE]\n\n")], "finished"));
    stream.completion_ended();
    stream.ended();
    stream.chunk(b"data: [DONE]\n\n");
    assert_eq!(sent(&mut stream), (vec![], "finished"));
}

#[test]
fn an_unknown_slot_is_not_named() {
    for reply in [None, Some(&b"oops"[..]), Some(&b"[]"[..])] {
        let mut stream = repeating_chat("{}");
        stream.slots_reply(reply);
        match drain(&mut stream).1 {
            Action::RenderPrompt(body) => assert_eq!(body, "{\"messages\":[]}"),
            other => panic!("{}", name(&other)),
        }
        stream.prompt_rendered(Some(json("{\"prompt\":\"\"}")));
        match drain(&mut stream).1 {
            Action::Complete(body) => assert!(!body.contains("id_slot")),
            other => panic!("{}", name(&other)),
        }
    }
}

#[test]
fn a_chat_ends_with_its_error() {
    let mut stream = chat("{}");
    stream.connected(false);
    assert_eq!(
        sent(&mut stream),
        (vec![plain("data: {\"error\":\"loop-guard: upstream unreachable\"}\n\n")], "finished")
    );
    let mut stream = repeating_chat("{}");
    stream.slots_listed(None);
    stream.prompt_reply(None);
    assert_eq!(
        sent(&mut stream),
        (vec![plain("data: {\"error\":\"loop-guard: apply-template failed\"}\n\n")], "finished")
    );
    let mut stream = repeating_chat("{}");
    stream.slots_listed(None);
    stream.prompt_rendered(Some(json("{\"prompt\":\"\"}")));
    drain(&mut stream);
    stream.completing(false);
    assert_eq!(sent(&mut stream), (vec![plain("data: [DONE]\n\n")], "finished"));
}

#[test]
fn unnamed_completions_get_a_name() {
    let mut stream = chat("{}");
    stream.connected(true);
    stream.chunk(b"data: {\"choices\":[{\"delta\":{\"content\":\"alpha beta. Wait, \"}}]}\n\n");
    stream.measured(&measurement(&[]));
    stream.chunk(b"data: {\"choices\":[{\"delta\":{\"content\":\"alpha beta. Wait, \"}}]}\n\n");
    stream.measured(&measurement(&[6]));
    drain(&mut stream);
    stream.slots_listed(None);
    stream.prompt_rendered(Some(json("{\"prompt\":\"\"}")));
    let texts = drain(&mut stream).0;
    assert!(texts[0].0.contains("\"id\":\"chatcmpl-loop-guard\""));
    assert!(texts[0].0.contains("\"model\":\"loop-guard\""));
    assert!(texts[0].0.contains("\"created\":0"));
}

#[test]
fn silence_is_covered_for_messages_only() {
    let mut stream = messages("{}");
    stream.idle();
    drain(&mut stream);
    stream.connected(true);
    stream.idle();
    assert_eq!(sent(&mut stream), (vec![vital(": keep-alive\n\n")], "next chunk"));
    let mut stream = chat("{}");
    stream.connected(true);
    stream.idle();
    assert_eq!(sent(&mut stream), (vec![], "next chunk"));
}

fn events(texts: &[(String, bool)]) -> Vec<String> {
    texts.iter().map(|(t, _)| t.lines().next().unwrap().replace("event: ", "")).collect()
}

#[test]
fn a_message_is_streamed_and_finished() {
    let mut stream = messages("{}");
    let (texts, action) = drain(&mut stream);
    assert_eq!(name(&action), "connect");
    assert_eq!(events(&texts), vec!["message_start"]);
    assert!(texts[0].0.contains("\"id\":\"msg-req-0\"") && !texts[0].1);
    stream.connected(true);
    stream.chunk(thought("hm").as_bytes());
    let (texts, _) = drain(&mut stream);
    assert_eq!(events(&texts), vec!["content_block_start", "content_block_delta"]);
    assert!(texts.iter().all(|t| t.1));
    stream.chunk(b"data: {\"choices\":[{\"delta\":{\"content\":\"ok\"},\"finish_reason\":\"length\"}]}\n\ndata: [DONE]\n\n");
    assert_eq!(
        events(&drain(&mut stream).0),
        vec!["content_block_stop", "content_block_start", "content_block_delta"]
    );
    stream.chunk(b"data: {\"choices\":[{\"delta\":{},\"finish_reason\":null}]}\n\n");
    stream.ended();
    let (texts, action) = drain(&mut stream);
    assert_eq!(name(&action), "finished");
    assert_eq!(events(&texts), vec!["content_block_stop", "message_delta", "message_stop"]);
    assert!(texts[1].0.contains("\"stop_reason\":\"max_tokens\"") && !texts[1].1);
}

#[test]
fn a_repeating_message_is_closed_by_force() {
    let mut stream = messages("{\"messages\":[]}");
    stream.connected(true);
    drain(&mut stream);
    stream.chunk(thought("alpha beta. Wait, alpha beta. Wait, ").as_bytes());
    stream.measured(&measurement(&[]));
    stream.measured(&measurement(&[9]));
    assert_eq!(sent(&mut stream), (vec![], "find slot"));
    stream.slots_listed(Some(json("[]")));
    stream.prompt_rendered(Some(json("{\"prompt\":\"\"}")));
    let (texts, action) = drain(&mut stream);
    assert_eq!(name(&action), "complete");
    assert_eq!(events(&texts), vec!["content_block_start", "content_block_delta"]);
    assert!(texts[1].0.contains("repetition detected") && !texts[1].1);
    stream.completing(true);
    stream.completion_text("data: {\"content\":\"so\",\"stop\":true}\n\n");
    let (texts, _) = drain(&mut stream);
    assert_eq!(
        events(&texts),
        vec!["content_block_stop", "content_block_start", "content_block_delta"]
    );
    assert!(texts.iter().all(|t| t.1));
    stream.completion_ended();
    let (texts, action) = drain(&mut stream);
    assert_eq!(name(&action), "finished");
    assert_eq!(events(&texts), vec!["content_block_stop", "message_delta", "message_stop"]);
    assert!(texts[1].0.contains("\"stop_reason\":\"end_turn\""));
}

#[test]
fn a_failed_message_is_finished() {
    let mut stream = messages("{}");
    drain(&mut stream);
    stream.connected(false);
    let (texts, action) = drain(&mut stream);
    assert_eq!(name(&action), "finished");
    assert_eq!(events(&texts), vec!["message_delta", "message_stop"]);
}

#[test]
fn a_hit_stops_the_rest_of_the_chunk() {
    let mut stream = messages("{}");
    stream.connected(true);
    drain(&mut stream);
    let mut chunk = thought("alpha beta. Wait, ");
    chunk.push_str(&thought("alpha beta. Wait, "));
    chunk.push_str(&thought("never seen"));
    stream.chunk(chunk.as_bytes());
    stream.measured(&measurement(&[]));
    // What came before the repetition has been translated already.
    assert_eq!(
        events(&sent(&mut stream).0),
        vec!["content_block_start", "content_block_delta"]
    );
    stream.measured(&measurement(&[5]));
    stream.slots_listed(None);
    stream.prompt_rendered(Some(json("{\"prompt\":\"\"}")));
    match drain(&mut stream).1 {
        Action::Complete(body) => {
            assert!(body.contains("alpha beta. Wait, alpha beta. Wait, "));
            assert!(!body.contains("never seen"));
        }
        other => panic!("{}", name(&other)),
    }
}
