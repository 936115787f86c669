[package]
name = "fast-thumbhash"
version = "0.2.0"
edition = "2021"
publish = false

[dev-dependencies]
thumbhash = "0.1"
