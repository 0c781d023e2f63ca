[package]
name = "text_reader"
version = "0.1.0"
edition = "2021"
publish = false

[dependencies]
memchr = "2"
memmap2 = "0.9"
anyhow = "1"
