[package]
name = "aethelgard_avl"
version = "0.1.0"
edition = "2021"
publish = false

[dependencies]
blake3 = { version = "1", features = ["pure"] }
parking_lot = "0.12"
thiserror = "2"
