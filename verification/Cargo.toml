[package]
name = "raknet_rs"
version = "0.1.0"
edition = "2021"
publish = false

[dependencies]
bytes = "1"
concurrent-queue = "2"
futures = "0.3"
log = "0.4"
lru = "0.12"
parking_lot = "0.12"
pin-project-lite = "0.2"
rand = "0.8"
serde = { version = "1", features = ["derive"] }
thiserror = "1"
tokio = { version = "1", features = ["net", "rt", "time", "sync"] }
