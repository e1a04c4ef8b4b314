[package]
name = "qs"
version = "0.1.0"
edition = "2021"
publish = false

[dependencies]
argh = "*"
axum = "*"
env_logger = "*"
mime_guess = "*"
pulldown-cmark = "*"
serde = { version = "*", features = ["derive"] }
serde_yml = "*"
tokio = { version = "*", features = ["full"] }
tokio-util = { version = "*", features = ["io"] }
