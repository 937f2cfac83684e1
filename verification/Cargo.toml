[package]
name = "narwhal_bft"
version = "0.1.0"
edition = "2021"
publish = false

[dependencies]
tokio = { version = "=1.53.2", features = ["rt", "rt-multi-thread", "sync", "macros", "time"] }
