//! What each request to the proxy leads to, and what is answered where the proxy
//! answers by itself.

use crate::anthropic::{
    anthropic_message, anthropic_to_openai_request, estimate_input_tokens, json_option,
    law_request_keeps_what_was_asked, openai_request, openai_response_to_anthropic, quarter_up,
    request_size,
};
use crate::guard::parsed_reply;
use crate::json::{no_entries, put, text, text_view, Json, JsonView};
use crate::text::{decimal, decimal_text};
use crate::wire::{
    bytes_value, is_faithful, json_text, parse_bytes, parsed_bytes, parsed_text, to_text,
    value_text,
};
use vstd::prelude::*;
use vstd::string::StringExecFns;

verus! {

/// An answer of the proxy: a status, and a JSON text.
pub struct Reply {
    pub status: u16,
    pub body: String,
}

/// The model of an answer.
pub type ReplyView = (u16, Seq<char>);

impl View for Reply {
    type V = ReplyView;

    open spec fn view(&self) -> ReplyView {
        (self.status, self.body@)
    }
}

/// What a request leads to.
pub enum Plan {
    /// It is refused.
    Reject(Reply),
    /// This text is sent on to the server, and its answer is sent back whole.
    Relay(String),
    /// A guarded stream is run for this request.
    Stream(Json),
}

/// The model of what a request leads to.
pub enum PlanView {
    Reject(ReplyView),
    Relay(Seq<char>),
    Stream(JsonView),
}

impl View for Plan {
    type V = PlanView;

    open spec fn view(&self) -> PlanView {
        match self {
            Plan::Reject(reply) => PlanView::Reject(reply@),
            Plan::Relay(body) => PlanView::Relay(body@),
            Plan::Stream(body) => PlanView::Stream(body@),
        }
    }
}

/// An error, for a client of chat completions.
pub open spec fn chat_error(message: Seq<char>) -> JsonView {
    JsonView::Object(map!["error"@ => text_view(message)])
}

/// An error, for a client of the Messages API.
pub open spec fn messages_error(kind: Seq<char>, message: Seq<char>) -> JsonView {
    JsonView::Object(
        map![
            "error"@ => JsonView::Object(
                map!["type"@ => text_view(kind), "message"@ => text_view(message)],
            ),
        ],
    )
}

/// What a chat-completions request leads to. One that does not stream cannot be
/// interfered with, and is passed on as it is.
pub open spec fn chat_plan(parsed: Option<JsonView>) -> PlanView {
    match parsed {
        Some(body) => if body.flag("stream"@) {
            PlanView::Stream(body)
        } else {
            PlanView::Relay(json_text(body))
        },
        None => PlanView::Reject(
            (400, json_text(chat_error("loop-guard: invalid JSON body"@))),
        ),
    }
}

/// What a Messages API request leads to: it is translated first.
pub open spec fn messages_plan(parsed: Option<JsonView>, model_id: Seq<char>) -> PlanView {
    match parsed {
        Some(body) => if openai_request(body, model_id).flag("stream"@) {
            PlanView::Stream(openai_request(body, model_id))
        } else {
            PlanView::Relay(json_text(openai_request(body, model_id)))
        },
        None => PlanView::Reject(
            (
                400,
                json_text(
                    messages_error("invalid_request_error"@, "loop-guard: invalid JSON body"@),
                ),
            ),
        ),
    }
}

/// What a client of the Messages API is answered when the server has answered.
pub open spec fn messages_answer(
    success: bool,
    parsed: Option<JsonView>,
    model_id: Seq<char>,
) -> ReplyView {
    match parsed {
        Some(resp) => if success {
            (200, json_text(anthropic_message(resp, model_id)))
        } else {
            (502, json_text(messages_error("api_error"@, "loop-guard: upstream error"@)))
        },
        None => (502, json_text(messages_error("api_error"@, "loop-guard: upstream error"@))),
    }
}

/// Builds an error for a client of chat completions.
fn make_chat_error(message: &str) -> (json: Json)
    ensures
        json@ == chat_error(message@),
{
    let mut fields = no_entries();
    put(&mut fields, "error", text(message));
    Json::Object(fields)
}

/// Builds an error for a client of the Messages API.
fn make_messages_error(kind: &str, message: &str) -> (json: Json)
    ensures
        json@ == messages_error(kind@, message@),
{
    let mut error = no_entries();
    put(&mut error, "type", text(kind));
    put(&mut error, "message", text(message));
    let mut fields = no_entries();
    put(&mut fields, "error", Json::Object(error));
    Json::Object(fields)
}

/// Decides on a chat-completions request, given its body, if that is JSON. What
/// is passed on reads as what came in, where it can be read back at all.
pub fn plan_chat_request(parsed: Option<Json>) -> (plan: Plan)
    ensures
        plan@ == chat_plan(json_option(parsed)),
        match json_option(parsed) {
            Some(body) => is_faithful(body) && !body.flag("stream"@) ==> parsed_text(
                plan@->Relay_0,
            ) == Some(body),
            None => true,
        },
{
    match parsed {
        Some(body) => if body.get_flag("stream") {
            Plan::Stream(body)
        } else {
            Plan::Relay(to_text(&body))
        },
        None => Plan::Reject(
            Reply { status: 400, body: to_text(&make_chat_error("loop-guard: invalid JSON body")) },
        ),
    }
}

/// Decides on a chat-completions request. What is passed on is the rendering of
/// the value that was read, decimal numbers included, and reads as that value
/// where it can be read back at all.
pub fn plan_chat(body: &[u8]) -> (plan: Plan)
    ensures
        plan@ == chat_plan(parsed_bytes(body@)),
        plan@ matches PlanView::Relay(sent) ==> (bytes_value(body@) matches Some(value)
            && sent == value_text(value)),
        match parsed_bytes(body@) {
            Some(json) => is_faithful(json) && !json.flag("stream"@) ==> parsed_text(
                plan@->Relay_0,
            ) == Some(json),
            None => true,
        },
{
    plan_chat_request(parse_bytes(body))
}

/// Decides on a Messages API request, given its body, if that is JSON.
pub fn plan_messages_request(parsed: Option<Json>, model_id: &str) -> (plan: Plan)
    ensures
        plan@ == messages_plan(json_option(parsed), model_id@),
{
    match parsed {
        Some(body) => {
            let request = anthropic_to_openai_request(&body, model_id);
            if request.get_flag("stream") {
                Plan::Stream(request)
            } else {
                Plan::Relay(to_text(&request))
            }
        },
        None => {
            let error = make_messages_error(
                "invalid_request_error",
                "loop-guard: invalid JSON body",
            );
            Plan::Reject(Reply { status: 400, body: to_text(&error) })
        },
    }
}

/// Decides on a Messages API request.
pub fn plan_messages(body: &[u8], model_id: &str) -> (plan: Plan)
    ensures
        plan@ == messages_plan(parsed_bytes(body@), model_id@),
{
    plan_messages_request(parse_bytes(body), model_id)
}

/// Answers a client of the Messages API, given whether the server answered with
/// success and its answer, if that is JSON.
pub fn answer_message(success: bool, parsed: Option<Json>, model_id: &str) -> (reply: Reply)
    ensures
        reply@ == messages_answer(success, json_option(parsed), model_id@),
{
    match parsed {
        Some(resp) => if success {
            let message = openai_response_to_anthropic(&resp, model_id);
            return Reply { status: 200, body: to_text(&message) };
        },
        None => {},
    }
    let error = make_messages_error("api_error", "loop-guard: upstream error");
    Reply { status: 502, body: to_text(&error) }
}

/// Answers a client of the Messages API, given whether the server answered with
/// success and its answer, if it could be read.
pub fn answer_messages(success: bool, answer: Option<&[u8]>, model_id: &str) -> (reply: Reply)
    ensures
        reply@ == messages_answer(success, parsed_reply(answer), model_id@),
{
    let parsed = match answer {
        Some(bytes) => parse_bytes(bytes),
        None => None,
    };
    answer_message(success, parsed, model_id)
}

/// Answers a client of chat completions when the server cannot be reached.
pub fn chat_unreachable() -> (reply: Reply)
    ensures
        reply@ == (502u16, json_text(chat_error("loop-guard: upstream unreachable"@))),
{
    Reply { status: 502, body: to_text(&make_chat_error("loop-guard: upstream unreachable")) }
}

/// Answers a client of the Messages API when the server cannot be reached.
pub fn messages_unreachable() -> (reply: Reply)
    ensures
        reply@ == (
            502u16,
            json_text(messages_error("api_error"@, "loop-guard: upstream unreachable"@)),
        ),
{
    let error = make_messages_error("api_error", "loop-guard: upstream unreachable");
    Reply { status: 502, body: to_text(&error) }
}

/// The answer to a request to count tokens.
pub open spec fn token_count(n: nat) -> JsonView {
    JsonView::Object(map!["input_tokens"@ => JsonView::Integer(n as int)])
}

/// Answers a request to count the tokens of a Messages API request.
pub fn count_tokens(body: &Json) -> (reply: Reply)
    ensures
        reply@ == (200u16, json_text(token_count(quarter_up(request_size(body@))))),
{
    let mut fields = no_entries();
    put(&mut fields, "input_tokens", Json::Unsigned(estimate_input_tokens(body)));
    Reply { status: 200, body: to_text(&Json::Object(fields)) }
}

/// Answers a request to count the tokens of a Messages API request, if its body is
/// JSON.
pub fn count_tokens_in(body: &[u8]) -> (reply: Option<Reply>)
    ensures
        match (reply, parsed_bytes(body@)) {
            (Some(reply), Some(json)) => reply@ == (
                200u16,
                json_text(token_count(quarter_up(request_size(json)))),
            ),
            (None, None) => true,
            _ => false,
        },
{
    match parse_bytes(body) {
        Some(json) => Some(count_tokens(&json)),
        None => None,
    }
}

/// The name of the request with the given number.
pub fn request_id(number: u64) -> (id: String)
    ensures
        id@ == "req-"@ + decimal(number as nat),
{
    "req-".to_owned().concat(decimal_text(number).as_str())
}

/// A request is guarded exactly when it is JSON and asks to be streamed; one that
/// is no JSON is refused with status 400, and nothing of it is sent on.
pub proof fn law_streaming_requests_are_guarded(parsed: Option<JsonView>, model_id: Seq<char>)
    ensures
        chat_plan(parsed) is Stream <==> (parsed matches Some(body) && body.flag("stream"@)),
        messages_plan(parsed, model_id) is Stream <==> (parsed matches Some(body) && body.flag(
            "stream"@,
        )),
        parsed is None ==> (chat_plan(parsed) matches PlanView::Reject(reply) && reply.0 == 400),
        parsed is None ==> (messages_plan(parsed, model_id) matches PlanView::Reject(reply)
            && reply.0 == 400),
        parsed is Some ==> chat_plan(parsed) !is Reject && messages_plan(parsed, model_id)
            !is Reject,
{
    match parsed {
        Some(body) => {
            law_request_keeps_what_was_asked(body, model_id);
        },
        None => {},
    }
}

/// A client of the Messages API gets a message exactly when the server answered
/// with success and in JSON, and otherwise status 502.
pub proof fn law_failures_are_never_passed_off_as_messages(
    success: bool,
    parsed: Option<JsonView>,
    model_id: Seq<char>,
)
    ensures
        messages_answer(success, parsed, model_id).0 == if success && parsed is Some {
            200u16
        } else {
            502u16
        },
{
}

/// A request of chat completions is passed on as it came: to a guarded stream, or as its
/// JSON text. A request of the Messages API is passed on as its translation. One that is
/// no JSON is refused with an error that says so, in the form of the protocol.
pub proof fn law_requests_are_passed_on_whole(body: JsonView, model_id: Seq<char>)
    ensures
        chat_plan(Some(body)) matches PlanView::Stream(sent) ==> sent == body,
        chat_plan(Some(body)) matches PlanView::Relay(sent) ==> sent == json_text(body),
        messages_plan(Some(body), model_id) matches PlanView::Stream(sent) ==> sent
            == openai_request(body, model_id),
        messages_plan(Some(body), model_id) matches PlanView::Relay(sent) ==> sent == json_text(
            openai_request(body, model_id),
        ),
        exists|error: JsonView|
            {
                &&& chat_plan(None) == PlanView::Reject((400, #[trigger] json_text(error)))
                &&& error.field_text("error"@) == Some("loop-guard: invalid JSON body"@)
            },
        exists|error: JsonView|
            {
                &&& messages_plan(None, model_id) == PlanView::Reject(
                    (400, #[trigger] json_text(error)),
                )
                &&& error.at("error"@).field_text("type"@) == Some("invalid_request_error"@)
                &&& error.at("error"@).field_text("message"@) == Some(
                    "loop-guard: invalid JSON body"@,
                )
            },
{
    lemma_error_fields("invalid_request_error"@, "loop-guard: invalid JSON body"@);
    assert(chat_plan(None) == PlanView::Reject(
        (400, json_text(chat_error("loop-guard: invalid JSON body"@))),
    ));
    assert(messages_plan(None, model_id) == PlanView::Reject(
        (
            400,
            json_text(messages_error("invalid_request_error"@, "loop-guard: invalid JSON body"@)),
        ),
    ));
}

/// The fields of an error.
proof fn lemma_error_fields(kind: Seq<char>, message: Seq<char>)
    ensures
        chat_error(message).field_text("error"@) == Some(message),
        messages_error(kind, message).at("error"@).field_text("type"@) == Some(kind),
        messages_error(kind, message).at("error"@).field_text("message"@) == Some(message),
{
    reveal_strlit("type");
    reveal_strlit("message");
    assert("type"@.len() == 4 && "message"@.len() == 7);
}

/// Where the server answers a request of the Messages API with success and in JSON, the
/// client gets the translation of that answer; otherwise it gets an error of the server's,
/// whatever the answer holds.
pub proof fn law_answers_are_translated(resp: JsonView, parsed: Option<JsonView>, model_id: Seq<char>)
    ensures
        messages_answer(true, Some(resp), model_id) == (
            200u16,
            json_text(anthropic_message(resp, model_id)),
        ),
        messages_answer(true, None, model_id) == messages_answer(false, parsed, model_id),
        exists|error: JsonView|
            {
                &&& messages_answer(false, parsed, model_id) == (502u16, #[trigger] json_text(error))
                &&& error.at("error"@).field_text("type"@) == Some("api_error"@)
                &&& error.at("error"@).field_text("message"@) == Some(
                    "loop-guard: upstream error"@,
                )
            },
{
    let error = messages_error("api_error"@, "loop-guard: upstream error"@);
    lemma_error_fields("api_error"@, "loop-guard: upstream error"@);
    assert(messages_answer(false, parsed, model_id) == (502u16, json_text(error)));
}

/// A count of tokens is told under its name.
pub proof fn law_token_counts_are_told(n: nat)
    ensures
        token_count(n).field("input_tokens"@) == Some(JsonView::Integer(n as int)),
{
}

} // verus!
