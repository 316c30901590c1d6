[package]
name = "rit"
version = "0.1.0"
edition = "2021"
publish = false

[dependencies]
hex = "*"
sha256 = { version = "*", default-features = false }
