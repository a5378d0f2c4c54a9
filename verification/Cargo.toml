[package]
name = "random_zh"
version = "0.1.0"
edition = "2021"
publish = false

[dependencies]
rand = "0.9"
serde_json = "1"
clap = { version = "4", features = ["derive"] }
