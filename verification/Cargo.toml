[package]
name = "ml-kem"
version = "0.1.0"
edition = "2021"
publish = false

[dependencies]
sha3 = "0.10"
rand_core = "0.9"
zeroize = "1"
hybrid-array = "0.2"

[dev-dependencies]
rand = "0.9"
hex = "0.4"
