[package]
name = "groundwire"
version = "0.1.0"
edition = "2021"
publish = false

[dependencies]
serde_json = "=1.0.154"
tokio = { version = "=1.54.1", features = ["io-util", "macros", "rt-multi-thread", "process"] }
anyhow = "=1.0.104"
tracing = "=0.1.44"
tracing-subscriber = { version = "=0.3.23", features = ["env-filter"] }
