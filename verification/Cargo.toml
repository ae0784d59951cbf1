[package]
name = "condition_eval"
version = "0.1.0"
edition = "2021"
publish = false

[dependencies]
anyhow = "1"
hostname = "0.4"
napi = "2"
sentry = { version = "*", default-features = false, features = ["anyhow"] }
sentry-tracing = "*"
serde_json = "1"
tracing = "0.1"
tracing-subscriber = "0.3"
