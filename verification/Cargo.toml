[package]
name = "telemetry_ingest"
version = "0.1.0"
edition = "2021"
publish = false

[dependencies]
anyhow = "*"
axum = "0.7"
chrono = "*"
env_logger = "*"
futures = "*"
rand = "0.8"
rusqlite = { version = "*", features = ["bundled"] }
rustls = { version = "*", default-features = false, features = ["ring", "logging", "std", "tls12"] }
rustls-native-certs = "*"
rustls-pki-types = "*"
serde = { version = "*", features = ["derive"] }
serde_json = "*"
tempfile = "*"
tokio = { version = "*", features = ["full"] }
tokio-postgres = "*"
tokio-postgres-rustls = "*"
tracing = "*"
zstd = "*"
