[package]
name = "gossip"
version = "0.1.0"
edition = "2021"
publish = false

[dependencies]
anyhow = "1"
bytes = "1"
futures = "0.3"
tokio = { version = "1", features = ["net", "rt", "rt-multi-thread", "sync", "io-util", "time", "macros"] }
tokio-util = { version = "0.7", features = ["codec", "net"] }
tracing = "0.1"
