[package]
name = "trimwire"
version = "0.1.0"
edition = "2021"
publish = false

[dependencies]
serde_json = "1"
sha2 = "0.10"
hex = "0.4"
anyhow = "1"
dashmap = "6"
http-body-util = "0.1"
hyper = { version = "1", features = ["client", "http1"] }
tokio = { version = "1", features = ["full"] }
tracing = "0.1"
