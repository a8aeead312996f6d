//! Loop detection and protocol translation for a reverse proxy that stands in
//! front of a chat-completion server.

pub mod text;
pub mod decoding;
pub mod json;
pub mod wire;
pub mod sse;
pub mod sse_laws;
pub mod words;
pub mod terms;
pub mod tracker;
pub mod tracker_laws;
pub mod anthropic;
pub mod anthropic_stream;
pub mod request_laws;
pub mod response_laws;
pub mod stream_laws;
pub mod block_laws;
pub mod upstream;
pub mod guard;
pub mod guard_laws;
pub mod telling_laws;
pub mod course_laws;
pub mod endpoints;
pub mod settings;
