[package]
name = "north_pole"
version = "0.1.0"
edition = "2021"
publish = false

[dependencies]
axum = { version = "0.6", features = ["multipart"] }
axum-extra = { version = "0.8", features = ["cookie"] }
base64 = "0.21"
chrono = "0.4"
governor = "0.6"
image = "0.24"
reqwest = { version = "0.11", default-features = false, features = ["json", "rustls-tls"] }
s2 = "*"
serde = { version = "1", features = ["derive"] }
serde_json = "1"
sha256 = "1"
tar = "0.4"
tokio = { version = "1", features = ["full"] }
tower-http = { version = "0.4", features = ["fs", "trace"] }
tracing = "0.1"
ulid = "1"
unic-emoji-char = "0.9"
uuid = "1"
