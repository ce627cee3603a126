[package]
name = "open_wal"
version = "0.1.0"
edition = "2021"
publish = false

[dependencies]
crc32c = "0.6"
rustix = { version = "1", features = ["fs"] }
arbitrary = { version = "1", features = ["derive"] }
tempfile = "3"
