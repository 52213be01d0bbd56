[package]
name = "yoink"
version = "0.1.0"
edition = "2021"
publish = false

[dependencies]
tokio = { version = "1", features = ["fs", "io-util", "rt", "rt-multi-thread", "macros"] }
chrono = "0.4"
