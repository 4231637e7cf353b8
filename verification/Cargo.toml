[package]
name = "peer_sync"
version = "0.1.0"
edition = "2021"
publish = false

[dependencies]
anyhow = "1"
futures = "0.3"
itertools = "0.10"
parking_lot = "0.12"
rand = "0.8"
serde = { version = "1", features = ["derive"] }
