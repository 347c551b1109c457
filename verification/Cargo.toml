[package]
name = "resp_codec"
version = "0.1.0"
edition = "2021"
publish = false

[dependencies]
atoi = "2"
bytes = "1"
dashmap = "5"
mini-redis = "0.4"
tokio = { version = "1", features = ["full"] }
