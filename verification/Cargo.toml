[package]
name = "updater"
version = "0.1.0"
edition = "2021"
publish = false

[dependencies]
semver = "=1.0.28"
serde = { version = "=1.0.229", features = ["derive"] }
serde_json = "=1.0.151"
tokio = { version = "=1.53.2", features = ["macros", "rt-multi-thread", "net"] }
axum = { version = "=0.8.9", features = ["multipart"] }
tower-http = { version = "=0.6.11", features = ["cors"] }
sqlx = { version = "=0.8.6", features = ["sqlite", "runtime-tokio"], default-features = false }
octocrab = "=0.43.0"
chrono = "=0.4.45"
