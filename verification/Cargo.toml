[package]
name = "sleepy"
version = "0.1.0"
edition = "2021"
publish = false

[dependencies]
tiny-keccak = { version = "*", features = ["keccak"] }
libsecp256k1 = "*"
rand = "*"
parking_lot = "*"
