[package]
name = "rust_server"
version = "0.1.0"
edition = "2021"
publish = false

[dependencies]
bytes = "1"
log = "0.4"
env_logger = "*"
tokio = { version = "1", features = ["rt-multi-thread", "net", "io-util", "sync", "macros"] }
