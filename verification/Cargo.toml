[package]
name = "novstar"
version = "0.1.0"
edition = "2021"
publish = false

[dependencies]
bincode = "2"
zstd = "0.13"
jieba-rs = "0.7"
dashmap = "6"
rayon = "1"
clap = { version = "4", features = ["derive"] }
tokio = { version = "1", features = ["macros", "rt-multi-thread"] }
sqlx = { version = "0.8", features = ["sqlite", "runtime-tokio"] }
eyre = "0.6"
env_logger = "0.11"
log = "0.4"
serde_json = "1"
