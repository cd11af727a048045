[package]
name = "wintermute_queue"
version = "0.1.0"
edition = "2021"
publish = false

[dependencies]
ciborium = "0.2"
crc32fast = "1"
rand = "0.8"
serde = { version = "1", features = ["derive"] }
serde_json = "1"
tokio = { version = "1", features = ["sync", "time"] }
tracing = "0.1"
