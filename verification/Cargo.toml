[package]
name = "pggraph"
version = "0.1.0"
edition = "2021"
publish = false

[dependencies]
bincode = { version = "=2.0.1", features = ["serde"] }
bitvec = "=1.1.1"
memmap2 = "=0.9.12"
roaring = { version = "=0.10.12", features = ["serde"] }
serde = { version = "=1.0.229", features = ["derive"] }
xxhash-rust = { version = "=0.8.19", features = ["xxh3"] }
