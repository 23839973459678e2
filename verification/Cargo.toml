[package]
name = "marketmakerlib"
version = "0.1.0"
edition = "2021"
publish = false

[dependencies]
anyhow = "=1.0.104"
chrono = { version = "=0.4.45", features = ["serde"] }
rust_decimal = { version = "=1.43.0", features = ["serde-str"] }
serde = { version = "=1.0.229", features = ["derive"] }
serde_json = "=1.0.151"
