[package]
name = "xx_bloom"
version = "0.4.0"
edition = "2021"

[dependencies]
bit-vec = "0.6"
getrandom = "0.2"
xxhash-rust = { version = "0.8", features = ["xxh3"] }

[dev-dependencies]
rand = "0.8"
