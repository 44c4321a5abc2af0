[package]
name = "chunkenc"
version = "0.1.0"
edition = "2021"

[dependencies]
bytes = "1"
thiserror = "1"
unsigned-varint = { version = "0.7", features = ["std"] }

[dev-dependencies]
rand = "0.8"
