[package]
name = "fiitcoin"
version = "0.1.0"
edition = "2021"
publish = false

[dependencies]
rsa = { version = "0.9", features = ["sha2"] }
sha2 = "0.10"
rand = "0.8"
