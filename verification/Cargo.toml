[package]
name = "oceanfs_segment"
version = "0.1.0"
edition = "2021"
publish = false

[dependencies]
async-trait = "0.1"
bincode = "1"
blake3 = "1"
bytes = "1"
crc32fast = "1"
parking_lot = "0.12"
serde = { version = "1", features = ["derive"] }
serde_json = "1"
smallvec = "1"
thiserror = "1"
tokio = { version = "1", features = ["fs", "io-util", "macros", "rt", "sync", "time"] }
tracing = "0.1"
