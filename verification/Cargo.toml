[package]
name = "mincode"
version = "0.1.0"
edition = "2021"
publish = false

[dependencies]
bit-vec = "*"

[dev-dependencies]
half = "*"
leb128 = "*"
