[package]
name = "nx9_dns_server"
version = "0.1.0"
edition = "2021"
publish = false

[dependencies]
base64 = "*"
chrono = "*"
env_logger = "*"
hex = "*"
log = "*"
rusqlite = { version = "*", features = ["bundled"] }
thiserror = "*"
tokio = { version = "*", features = ["full"] }
