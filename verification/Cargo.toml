[package]
name = "wisdom"
version = "0.1.0"
edition = "2021"
publish = false

[dependencies]
rand = "0.8"
sha2 = "0.10"
csv = "1"
serde = { version = "1", features = ["derive"] }
serde_json = "1"
candle-core = "0.8"
candle-nn = "0.8"
