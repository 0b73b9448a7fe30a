[package]
name = "kaoruko"
version = "0.1.0"
edition = "2021"
publish = false

[dependencies]
sha2 = "0.10"
urlencoding = "2"
serde = { version = "1", features = ["derive"] }
serde_json = "1"
axum = "0.7"
tokio = { version = "1", features = ["full"] }
tokio-stream = { version = "0.1", features = ["sync"] }
tokio-util = { version = "0.7", features = ["io"] }
reqwest = { version = "0.12", default-features = false, features = ["json"] }
clap = { version = "4", features = ["derive"] }
