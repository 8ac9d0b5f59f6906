[package]
name = "microrouter"
version = "0.1.0"
edition = "2021"
publish = false

[dependencies]
anyhow = "*"
serde = { version = "*", features = ["derive"] }
serde_json = "*"
tokio = { version = "*", features = ["net", "io-util", "rt-multi-thread", "macros", "sync"] }
