[package]
name = "kernelflow"
version = "0.1.0"
edition = "2021"
publish = false

[dependencies]
serde = { version = "=1.0.229", features = ["derive"] }
serde_json = { version = "=1.0.154", features = ["float_roundtrip"] }
sha2 = "=0.10.9"
hex = "=0.4.3"
uuid = { version = "=1.29.0", features = ["v4", "serde"] }
ed25519-dalek = "=2.2.0"
rand = "=0.8.8"
chrono = { version = "=0.4.45", features = ["serde"] }
thiserror = "=1.0.69"
anyhow = "=1.0.104"
async-trait = "=0.1.92"
tokio = { version = "=1.54.1", features = ["full"] }
futures = "=0.3.34"
governor = "=0.6.3"
tracing = "=0.1.44"
tracing-subscriber = { version = "=0.3.23", features = ["env-filter", "json"] }
reqwest = { version = "=0.12.28", default-features = false, features = ["json"] }
axum = "=0.8.9"
async-graphql = "=7.2.1"
async-graphql-axum = "=7.2.1"
tower-http = { version = "=0.6.11", features = ["cors", "trace"] }
async-stream = "=0.3.6"
clap = { version = "=4.6.7", features = ["derive", "env"] }
dotenvy = "=0.15.7"
metrics-exporter-prometheus = "=0.15.3"
