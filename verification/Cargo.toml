[package]
name = "sluice"
version = "0.2.0"
edition = "2021"
publish = false

[dependencies]
axum = "0.8"
base64 = "0.22"
bytes = "1"
futures-util = "0.3"
getrandom = "0.2"
hmac = "0.12"
pbkdf2 = "0.12"
reqwest = { version = "0.12", default-features = false, features = ["rustls-tls", "stream"] }
serde = { version = "1", features = ["derive"] }
serde_json = "1"
sha2 = "0.10"
subtle = "2"
tokio = { version = "1", features = ["full"] }
tokio-stream = "0.1"
