[package]
name = "redis_lite"
version = "0.1.0"
edition = "2021"
publish = false

[dependencies]
bytes = "1"
memchr = "2"
tokio = { version = "1", features = ["rt-multi-thread", "net", "macros"] }
tokio-util = { version = "0.7", features = ["codec"] }
futures = "0.3"
