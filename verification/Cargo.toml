[package]
name = "rmqtt_plugins"
version = "0.1.0"
edition = "2021"
publish = false

[dependencies]
rand = "=0.8.8"
regex = "=1.13.1"
lru = "=0.19.0"
serde_json = "=1.0.154"
rmqtt = { version = "=0.24.0", default-features = false }
base64 = "=0.22.1"
chrono = "=0.4.45"
serde = { version = "=1.0.229", features = ["derive"] }
