[package]
name = "tgbot"
version = "0.1.0"
edition = "2021"
publish = false

[dependencies]
tokio = { version = "*", features = ["full"] }
tokio-util = "*"
serde = { version = "*", features = ["derive"] }
serde_yaml = "*"
