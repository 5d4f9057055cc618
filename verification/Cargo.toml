[package]
name = "reasons_core"
version = "0.1.0"
edition = "2021"
publish = false

[dependencies]
dirs = "5"
chrono = "0.4"
serde = { version = "1", features = ["derive"] }
serde_json = "1"
toml = "0.8"
