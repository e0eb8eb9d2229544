[package]
name = "codex_state"
version = "0.1.0"
edition = "2021"
publish = false

[dependencies]
axum = "0.8"
http = "1"
serde_json = "1"
sha2 = "0.10"
