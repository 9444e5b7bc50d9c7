[package]
name = "proofs"
version = "0.1.0"
edition = "2021"
publish = false

[dependencies]
parity-scale-codec = { version = "3", features = ["derive"] }
