[package]
name = "bitcask"
version = "0.1.0"
edition = "2021"
publish = false

[dependencies]
crc = "3"
anyhow = "1"
thiserror = "1"
tracing = "0.1"
