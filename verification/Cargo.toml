[package]
name = "cthulu"
version = "0.1.0"
edition = "2021"
publish = false

[dependencies]
anyhow = "1"
async-stream = "0.3"
axum = "0.8"
dirs = "*"
dotenvy = "0.15"
futures = "0.3"
hyper = "1"
reqwest = { version = "0.12", features = ["json"] }
sentry = { version = "*", default-features = false, features = ["tower", "tower-http", "tracing"] }
serde = { version = "1", features = ["derive"] }
serde_json = "1"
tokio = { version = "1", features = ["full"] }
tokio-stream = { version = "0.1", features = ["io-util"] }
tracing = "0.1"
tracing-subscriber = { version = "0.3", features = ["env-filter"] }
tracing-tree = "*"
