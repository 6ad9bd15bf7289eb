[package]
name = "mikui"
version = "0.1.0"
edition = "2021"
publish = false

[dependencies]
chrono = "=0.4.45"
keyring = "4"
memchr = "=2.8.3"
rdkafka = "=0.39.0"
serde = { version = "=1.0.229", features = ["derive"] }
serde_json = "=1.0.154"
tokio = { version = "1", features = ["sync", "rt"] }
