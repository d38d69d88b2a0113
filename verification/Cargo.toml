[package]
name = "bifrost_api"
version = "0.1.0"
edition = "2021"
publish = false

[dependencies]
rand = "=0.8.8"
hex = "=0.4.3"
sha2 = "=0.10.9"
chrono = { version = "=0.4.45", default-features = false, features = ["clock", "std"] }
serde = { version = "=1.0.229", features = ["derive"] }
serde_json = "=1.0.154"
axum = { version = "=0.8.9", default-features = false, features = ["json"] }
argon2 = "0.5"
uuid = { version = "1", features = ["v4"] }
