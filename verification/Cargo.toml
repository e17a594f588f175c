[package]
name = "trade"
version = "0.1.0"
edition = "2021"
publish = false

[dependencies]
primitive-types = "*"
parity-codec = { version = "*", features = ["derive"] }
