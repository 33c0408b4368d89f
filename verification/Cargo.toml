[package]
name = "hulahoop"
version = "0.1.0"
edition = "2021"
publish = false

[dev-dependencies]
rustc-hash = "*"
