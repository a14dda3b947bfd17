[package]
name = "torrent"
version = "0.1.0"
edition = "2021"
publish = false

[dependencies]
rust-crypto = "0.2"
rand = "0.8"
serde = { version = "1", features = ["derive"] }
serde_bytes = "0.11"
serde_bencode = "0.2"
reqwest = { version = "0.12", default-features = false, features = ["blocking"] }
