[package]
name = "kez"
version = "0.1.0"
edition = "2021"
publish = false

[dependencies]
anyhow = "1"
axum = "0.7"
backon = "1"
clap = { version = "4", features = ["derive"] }
clickhouse = "0.13"
env_logger = "0.11"
itertools = "0.14"
log = "0.4"
reqwest = { version = "0.12", default-features = false, features = ["rustls-tls"] }
serde = { version = "1", features = ["derive"] }
serde_json = "1"
thiserror = "1"
tokio = { version = "1", features = ["full"] }
