[package]
name = "cascade"
version = "0.1.0"
edition = "2021"
publish = false

[dependencies]
serde_json = "1"
crossbeam-channel = "0.5"
portable-atomic = "1"
opus = "0.3"
parking_lot = "0.12"
arc-swap = "1"
libc = "0.2"
anyhow = "1"
tracing = "0.1"
serde = { version = "1", features = ["derive"] }
tokio = { version = "1", features = ["full"] }
axum = { version = "0.7", features = ["ws"] }
tower-http = { version = "0.5", features = ["cors"] }
futures-util = "0.3"
alsa = "0.9"
