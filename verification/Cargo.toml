[package]
name = "hashline"
version = "0.1.0"
edition = "2021"
publish = false

[dependencies]
anyhow = "1"
ignore = "0.4"
regex = "1"
serde_json = "1"
similar = "2"
xxhash-rust = { version = "0.8", features = ["xxh32"] }
