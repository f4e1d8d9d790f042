[package]
name = "victoria"
version = "0.1.0"
edition = "2021"
publish = false

[dependencies]
anyhow = "1"
console-subscriber = "*"
crossterm = "*"
rand = "0.9"
reqwest = { version = "0.12", default-features = false }
sha1 = "0.10"
tokio = { version = "1", features = ["full", "tracing"] }
tokio-util = "0.7"
tracing = "0.1"
tracing-appender = "0.2"
tracing-subscriber = { version = "0.3", features = ["env-filter", "json"] }
url = "2"
