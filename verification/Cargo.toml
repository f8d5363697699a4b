[package]
name = "lsmkv"
version = "0.1.0"
edition = "2021"

[dependencies]
crc32fast = "*"
