[package]
name = "transformer_rs"
version = "0.1.0"
edition = "2021"
publish = false

[dependencies]
anyhow = "1"
serde = "=1.0.229"
serde_json = { version = "=1.0.151", features = ["preserve_order"] }
