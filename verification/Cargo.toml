[package]
name = "valence"
version = "0.1.0"
edition = "2021"
publish = false

[dependencies]
sha2 = "=0.10.8"
hashbrown = "=0.15.5"
parking_lot = "=0.12.5"
serde = { version = "=1.0.229", features = ["derive"] }
serde_json = "=1.0.154"
clap = { version = "=4.6.7", features = ["derive"] }
anyhow = "=1.0.104"
toml = "=0.8.23"
dirs = "=6.0.0"
hex = "=0.4.3"
const-hex = "*"
base64 = "=0.22.1"
flume = "=0.11.1"
lru = "=0.12.5"
msgpacker = "*"
reqwest = { version = "=0.12.28", default-features = false, features = ["blocking", "json"] }
