[package]
name = "moq_publisher"
version = "0.1.0"
edition = "2021"
publish = false

[dependencies]
anyhow = "=1.0.104"
bytes = "=1.12.1"
moqtail = "=0.11.1"
mp4 = "=0.14.0"
serde = { version = "=1.0.229", features = ["derive"] }
tokio = { version = "=1.54.1", features = ["full"] }
tracing = "=0.1.44"
warp = "=0.3.7"
wtransport = { version = "*", features = ["dangerous-configuration"] }
