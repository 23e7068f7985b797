[package]
name = "ark_tags"
version = "0.1.0"
edition = "2021"
publish = false

[dependencies]
crc32fast = "*"
