[package]
name = "loop_guard"
version = "0.1.0"
edition = "2021"
publish = false

[dependencies]
axum = "0.7"
bytes = "1"
chrono = "0.4"
regex = "1"
reqwest = { version = "0.12", default-features = false, features = ["json", "stream"] }
serde_json = "1"
tokio = { version = "1", features = ["macros", "net", "rt-multi-thread", "sync", "time"] }
tokio-stream = "0.1"
