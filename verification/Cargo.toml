[package]
name = "chunkstore"
version = "0.1.0"
edition = "2021"
publish = false

[dependencies]
sha2 = "*"
zstd = "*"
crypto-hash = "*"
memmap2 = "*"
tokio = { version = "*", features = ["fs", "rt"] }
futures = "*"
chrono = "*"
