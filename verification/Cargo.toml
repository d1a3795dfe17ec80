[package]
name = "webhook-listener"
version = "0.1.0"
edition = "2021"
publish = false

[dependencies]
uuid = { version = "1", features = ["v4"] }
time = "0.3"
serde_json = "1"
serde = { version = "1", features = ["derive"] }
axum = "0.8"
axum-extra = { version = "0.10", features = ["cookie"] }
sqlx = { version = "0.8", default-features = false, features = ["runtime-tokio", "sqlite"] }
askama = "0.12"
clap = { version = "4", features = ["derive", "env"] }
tokio = { version = "1", features = ["full"] }
tower-http = { version = "0.6", features = ["trace", "limit", "catch-panic"] }
tracing = "0.1"
tracing-subscriber = { version = "0.3", features = ["env-filter"] }
anyhow = "1"
thiserror = "2"
