[package]
name = "snaildb"
version = "0.1.0"
edition = "2021"
publish = false

[dependencies]
crc32fast = "1"
xxhash-rust = { version = "0.8", features = ["xxh3"] }
