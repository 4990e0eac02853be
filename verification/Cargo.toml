[package]
name = "orderbook_feed"
version = "0.1.0"
edition = "2021"
publish = false

[dependencies]
serum_dex = "*"
tokio = { version = "*", features = ["rt", "macros", "sync", "time"] }
async-channel = "*"
serde = { version = "*", features = ["derive"] }
toml = "*"
log = "*"
