[package]
name = "tinystore"
version = "0.1.0"
edition = "2021"
publish = false

[dependencies]
md-5 = "0.10"
sha2 = "0.10"
hmac = "0.12"
hex = "0.4"
chrono = "0.4"
uuid = { version = "1", features = ["v4"] }
quick-xml = { version = "0.36", features = ["serialize"] }
serde = { version = "1", features = ["derive"] }
serde_json = "1"
serde_yaml = "0.9"
thiserror = "1"
tokio = { version = "1", features = ["full"] }
axum = "0.7"
tower-http = { version = "0.5", features = ["fs", "trace"] }
async-trait = "0.1"
bytes = "1"
tracing = "0.1"
tracing-subscriber = { version = "0.3", features = ["env-filter"] }
clap = { version = "4", features = ["derive", "env"] }
anyhow = "1"
walkdir = "2"
