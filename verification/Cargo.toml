[package]
name = "bitcask"
version = "0.1.0"
edition = "2021"
publish = false

[dependencies]
crc32fast = "1"
bytes = "1"
parking_lot = "0.12"

[dev-dependencies]
prost = "*"
