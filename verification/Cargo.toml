[package]
name = "azookey"
version = "0.1.0"
edition = "2021"
publish = false

[dependencies]
serde = { version = "1", features = ["derive"] }
serde_json = "1"
tracing = "0.1"
tracing-core = "0.1"
tracing-subscriber = "0.3"
chrono = "0.4"
anyhow = "1"
