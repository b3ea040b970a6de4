[package]
name = "vurze"
version = "0.1.0"
edition = "2021"
publish = false

[dependencies]
ed25519-dalek = { version = "2", features = ["rand_core"] }
hex = "0.4"
rand = "0.8"
sha2 = "0.10"
pyo3 = "0.23"
