[package]
name = "building_blocks_storage"
version = "0.1.0"
edition = "2021"
publish = false

[dependencies]
ahash = "*"
lz4 = "*"
snap = "*"
