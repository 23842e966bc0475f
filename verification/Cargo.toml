[package]
name = "hearth"
version = "0.1.0"
edition = "2021"
publish = false

[dependencies]
anyhow = "1.0"
axum = "0.7"
chrono = "0.4"
clap = { version = "4.5", features = ["derive"] }
csv = "1.3"
dns-lookup = "2.0"
maxminddb = "0.23"
pnet = "0.35"
rusqlite = { version = "0.31", features = ["bundled"] }
serde = { version = "1.0", features = ["derive"] }
serde_json = "1.0"
tokio = { version = "1.40", features = ["full"] }
toml = "0.8"
tower-http = { version = "0.5", features = ["cors"] }
tracing = "0.1"
tracing-subscriber = { version = "0.3", features = ["env-filter"] }
