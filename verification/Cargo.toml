[package]
name = "gossipkit"
version = "0.1.0"
edition = "2021"
publish = false

[dependencies]
ed25519-dalek = "*"
sha3 = "*"
rand = "*"
