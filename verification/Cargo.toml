[package]
name = "pbpe_tokenizer"
version = "0.1.0"
edition = "2021"
publish = false

[dependencies]
priority-queue = "*"
serde = { version = "1", features = ["derive"] }
serde_json = "1"
clap = { version = "4", features = ["derive"] }
