[package]
name = "tiny_redis"
version = "0.1.0"
edition = "2021"
publish = false

[dependencies]
anyhow = "*"
bytes = "*"
clap = { version = "*", features = ["derive"] }
env_logger = "*"
futures = "*"
log = "*"
tokio = { version = "*", features = ["rt-multi-thread", "net", "io-util", "macros"] }
tokio-util = { version = "*", features = ["codec"] }
