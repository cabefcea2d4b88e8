[package]
name = "cc-switch"
version = "0.1.0"
edition = "2021"
publish = false

[dependencies]
serde = { version = "1", features = ["derive"] }
serde_json = { version = "1", features = ["preserve_order"] }
serde_yaml = "0.9"
indexmap = "2"
http = "1"
chrono = "0.4"
rusqlite = "0.32"
tokio = { version = "1", features = ["sync", "time", "macros", "rt"] }
futures = "0.3"
async-stream = "0.3"
bytes = "1"
