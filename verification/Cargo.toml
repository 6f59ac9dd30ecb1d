[package]
name = "barus"
version = "0.1.0"
edition = "2021"
publish = false

[dependencies]
bincode = "2"
serde = { version = "1", features = ["derive"] }
serde_json = "1"
tokio = { version = "1", features = ["full"] }
memmap2 = "0.9"
sysinfo = "*"
log = "0.4"
env_logger = "0.11"
libc = "0.2"
axum = "0.8"
tikv-jemallocator = "0.6"
