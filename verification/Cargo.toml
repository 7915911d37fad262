[package]
name = "rust_fm"
version = "0.1.0"
edition = "2021"
publish = false

[dependencies]
suffix_array = "*"
bitintr = "*"
