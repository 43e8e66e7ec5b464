[package]
name = "fri"
version = "0.1.0"
edition = "2021"
publish = false

[dependencies]
starknet-crypto = "0.6"
starknet-ff = "0.3"
blake2 = "0.10"
