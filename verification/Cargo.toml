[package]
name = "narwhal_storage"
version = "0.1.0"
edition = "2021"
publish = false

[dependencies]
indexmap = "2"
parking_lot = "0.12"
snarkvm = "=0.16.3"

[dev-dependencies]
snarkvm = { version = "=0.16.3", features = ["test-helpers"] }
