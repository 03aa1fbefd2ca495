[package]
name = "prime_stream"
version = "0.1.0"
edition = "2021"
publish = false

[dependencies]
primal = "0.3"
tokio = { version = "0.2", features = ["sync", "time", "stream", "rt-core"] }
