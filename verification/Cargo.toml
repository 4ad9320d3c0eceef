[package]
name = "udp_stream"
version = "0.1.0"
edition = "2021"
publish = false

[dependencies]
bytes = "*"
tokio = { version = "*", features = ["net", "rt-multi-thread", "sync", "io-util", "time", "macros"] }
