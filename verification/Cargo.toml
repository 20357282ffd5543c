[package]
name = "mydht-base"
version = "0.1.0"
edition = "2021"
publish = false

[dependencies]
byteorder = "1"
rand = "0.8"
bit-vec = "0.6"
