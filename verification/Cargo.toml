[package]
name = "qwen_asr"
version = "0.1.0"
edition = "2021"
publish = false

[dependencies]
tokenizers = { version = "*", default-features = false, features = ["onig"] }
anyhow = "1"
clap = { version = "4", features = ["derive"] }
serde = { version = "1", features = ["derive"] }
serde_json = "1"
log = "0.4"
env_logger = "*"
hound = "3"
rubato = "0.16"
rustfft = "6"
earshot = "*"
rand = "*"
