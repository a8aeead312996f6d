# loop-guard

A reverse proxy for a chat-completion server (`llama-server`) that notices when a
reasoning model has got stuck restating the same dead-end thought, closes the
thought by force and lets the model go on from there. It also speaks the Messages
API, and translates it to and from chat completions.

The library decides; it is written in Verus, and every function in it is proved
against its contract. The program around it does the input and output.

## How it decides

Streaming text is cut into steps at the model's own restart markers ("wait",
"actually", "hold on", "hmm"). Each finished step is compared with every earlier
one of the same trace, by bags of words in which a word counts for more the fewer
steps have it. A step that is similar enough to an earlier one ends the reading.
The conversation is then rendered as a prompt, everything generated so far is put
behind it with a nudge that names what is being repeated and a closing tag, and
generation continues in the slot that holds the trace's cache.

## Layout

| Path | What it holds |
|---|---|
| `src/text.rs` | strings: joining, searching, cutting at byte offsets, decimal numbers |
| `src/decoding.rs` | bytes that arrive in chunks, decoded without cutting a character in two |
| `src/json.rs`, `src/wire.rs` | JSON values and their model; rendering and parsing with `serde_json` |
| `src/sse.rs` | server-sent events: payloads out of chunks, frames around JSON |
| `src/words.rs`, `src/terms.rs` | content words, their counts, and the counts that a comparison needs |
| `src/tracker.rs` | steps, restart markers, and the verdict on a measured step |
| `src/anthropic.rs`, `src/anthropic_stream.rs`, `src/stream_laws.rs` | the Messages API: whole requests and responses, streamed events, and what holds of every stream |
| `src/upstream.rs` | what is asked of the server on a repetition, and how its replies are read |
| `src/guard.rs`, `src/guard_laws.rs` | the course of one guarded stream as a state machine, and what holds of every course |
| `src/endpoints.rs`, `src/settings.rs` | what a request leads to, and how the proxy is set up |
| `app/` | the program: the server, the client, the clock, and cosine similarity in floating point |

A contract speaks of mathematical models: a `Json` is a `JsonView`, a tracker a
`TrackerView`, a stream a `GuardView`. Proof functions whose names begin with
`law_` state what holds across functions.

What `serde_json`, `regex` and a few functions of the standard library do is
taken on trust; each such item says what it claims of them.

## Environment variables

| Variable | Default | Meaning |
|---|---|---|
| `LOOP_GUARD_HOST` | `127.0.0.1` | Listen address |
| `LOOP_GUARD_PORT` | `8898` | Listen port |
| `LOOP_UPSTREAM_HOST` | `127.0.0.1` | Server host |
| `LOOP_UPSTREAM_PORT` | `8901` | Server port |
| `LOOP_GUARD_THRESHOLD` | `0.35` | Similarity from which a step counts as a repetition |
| `LOOP_GUARD_MIN_STEP_WORDS` | `15` | Least number of words of a step |
| `LOOP_GUARD_VERBOSE` | `0` | `1` to log the similarity of every step |
| `LOOP_GUARD_MODEL_NAME` | `qwen3.6-35b-a3b-gpu` | Model that Messages API requests are served by |
