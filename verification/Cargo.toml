[package]
name = "world_learn"
version = "0.1.0"
edition = "2021"
publish = false

[dependencies]
anyhow = "1"
dioxus = "*"
fsrs = "*"
jiff = { version = "0.2", features = ["serde"] }
objc2-foundation = "*"
sentry = "*"
sentry-tracing = "*"
serde = { version = "1", features = ["derive"] }
serde_json = "1"
tracing-subscriber = { version = "*", features = ["env-filter"] }
