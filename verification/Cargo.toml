[package]
name = "h2o_qwen2"
version = "0.1.0"
edition = "2021"
publish = false

[dependencies]
candle-core = "0.9"
candle-nn = "0.9"
memoffset = "0.9"
serde = { version = "1", features = ["derive"] }
serde_json = "1"
anyhow = "1"
clap = { version = "4", features = ["derive"] }
rand = "0.9"
tokenizers = { version = "0.21", default-features = false, features = ["fancy-regex"] }
tracing-chrome = "0.7"
tracing-subscriber = "0.3"
