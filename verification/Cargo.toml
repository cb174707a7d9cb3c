[package]
name = "sieve"
version = "0.1.0"
edition = "2021"
publish = false

[dependencies]
anyhow = "1"
axum = "*"
serde = { version = "1", features = ["derive"] }
serde_json = "1"
tokio = { version = "1", features = ["rt-multi-thread", "net", "macros"] }
tower-http = { version = "*", features = ["compression-gzip", "fs", "trace"] }
