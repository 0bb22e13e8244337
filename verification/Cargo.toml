[package]
name = "mmap_scan"
version = "0.1.0"
edition = "2021"
publish = false

[dependencies]
ahash = "0.8"
arrow = { version = "*", default-features = false }
memchr = "2"
once_cell = "1"
parking_lot = "0.12"
rayon = "1"
regex = "1"
