[package]
name = "cap9-std"
version = "0.1.0"
edition = "2021"
publish = false

[dependencies]
pwasm-abi = "*"
pwasm-ethereum = "*"
