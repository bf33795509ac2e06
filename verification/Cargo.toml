[package]
name = "llm_api"
version = "0.1.0"
edition = "2021"
publish = false

[dependencies]
brotli = "=9.0.0"
sha2 = "=0.11.0"
hex = "=0.4.3"
rand = "=0.10.3"
serde_json = "=1.0.151"
chrono = "=0.4.45"
uuid = { version = "=1.27.0", features = ["v4"] }
serde = { version = "=1.0.229", features = ["derive"] }
serde_yaml = "=0.9.34"
axum = "=0.8.9"
tokio = { version = "=1.53.2", features = ["full"] }
reqwest = { version = "=0.12.28", default-features = false, features = ["json", "rustls-tls", "http2"] }
sqlx = { version = "=0.9.0", default-features = false, features = ["sqlite", "runtime-tokio", "macros"] }
tower = { version = "=0.5.3", features = ["limit", "util"] }
futures = "=0.3.34"
