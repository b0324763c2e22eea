[package]
name = "rkui"
version = "0.1.0"
edition = "2021"
publish = false

[dependencies]
anyhow = "1"
base64 = "0.22"
chrono = "0.4"
env_logger = "0.11"
minijks = "0.1"
openssl = "0.10"
protobuf = "3"
protobuf-json-mapping = "3"
protobuf-parse = "3"
rdkafka = "0.39"
serde = { version = "1", features = ["derive"] }
serde_json = "1"
tempfile = "3"
tokio = { version = "1", features = ["rt", "sync"] }
