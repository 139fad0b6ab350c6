[package]
name = "edge"
version = "0.1.0"
edition = "2021"
publish = false

[dependencies]
uuid = { version = "1", features = ["v4"] }
json = "0.12"
serde = { version = "1", features = ["derive"] }
serde_json = "1"
sqlx = { version = "0.8", default-features = false, features = ["mysql", "runtime-tokio"] }
tokio = { version = "1", features = ["full"] }
axum = "0.7"
log = "0.4"
env_logger = "0.11"
hmac = "0.12"
jwt = "0.16"
sha2 = "0.10"
pnet = "0.35"
