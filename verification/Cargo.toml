[package]
name = "zap_engine"
version = "0.1.0"
edition = "2021"
publish = false

[dependencies]
rust-crypto = "*"
dashmap = "*"
anyhow = "*"
log = "*"
env_logger = "*"
structopt = "*"
tokio = { version = "*", features = ["macros", "rt-multi-thread"] }
