[package]
name = "alda"
version = "0.1.0"
edition = "2021"
publish = false

[dependencies]
anyhow = "1"
clap = { version = "3", features = ["derive"] }
colorful = "0.2"
env_logger = "0.10"
log = "0.4"
walkdir = "2"

[dev-dependencies]
serde_bencode = "0.2"
