[package]
name = "bitcask"
version = "0.1.0"
edition = "2021"
publish = false

[dependencies]
anyhow = "1"
arbitrary = { version = "1", features = ["derive"] }
bincode = "1.3"
crc = "3"
rustyline = "*"
serde = "1"
