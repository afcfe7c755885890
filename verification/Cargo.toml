[package]
name = "hop_hash"
version = "0.1.0"
edition = "2021"
publish = false

[dependencies]
foldhash = "*"

[dev-dependencies]
siphasher = "1"
rand = "0.9"
