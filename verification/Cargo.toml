[package]
name = "karma"
version = "0.1.0"
edition = "2021"
publish = false

[dependencies]
tokenizers = "=0.23.2"
tokio = { version = "=1.54.1", features = ["full"] }
serde = { version = "=1.0.229", features = ["derive"] }
serde_json = "=1.0.154"
anyhow = "=1.0.104"
log = "=0.4.35"
chrono = "=0.4.45"
axum = "=0.8.9"
tower-http = { version = "=0.6.11", features = ["cors"] }
rusqlite = { version = "=0.41.1", features = ["bundled"] }
opener = { version = "=0.9.0", features = ["reveal"] }
arboard = "=3.7.0"
ort = { version = "=2.0.0-rc.10", default-features = false, features = ["ndarray", "load-dynamic"] }
