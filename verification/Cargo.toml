[package]
name = "kissmp_server"
version = "0.6.0"
edition = "2021"
publish = false

[dependencies]
rand = "=0.8.8"
tokio = { version = "=1.53.2", features = ["full"] }
quinn = "=0.8.5"
rustls = "=0.20.9"
rcgen = "=0.9.3"
futures = "=0.3.34"
tokio-stream = "=0.1.19"
tokio-util = { version = "=0.7.19", features = ["codec"] }
anyhow = "=1.0.104"
bytes = "1"
log = "=0.4.34"
pretty_env_logger = "=0.4.0"
serde = { version = "=1.0.229", features = ["derive"] }
serde_json = "=1.0.151"
