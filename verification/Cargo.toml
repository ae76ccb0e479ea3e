[package]
name = "claude_agent_rust_sdk"
version = "0.1.0"
edition = "2021"
publish = false

[dependencies]
serde = { version = "=1.0.229", features = ["derive"] }
serde_json = { version = "=1.0.154", features = ["preserve_order"] }
unicode-normalization = "=0.1.26"
uuid = { version = "=1.29.0", features = ["v4"] }
tokio = { version = "=1.54.1", features = ["rt", "sync", "time", "fs", "io-util", "process", "macros"] }
futures = "=0.3.34"
async-trait = "=0.1.92"
reqwest = { version = "=0.12.28", default-features = false, features = ["json", "stream"] }
tempfile = "=3.27.0"
tracing = "=0.1.44"
