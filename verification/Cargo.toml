[package]
name = "libactionkv"
version = "0.1.0"
edition = "2021"
publish = false

[dependencies]
bincode = "1.3"
byteorder = "1"
crc = "1.8"
