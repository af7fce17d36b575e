[package]
name = "mojitoswap_pool"
version = "0.1.0"
edition = "2021"
publish = false

[dependencies]
scrypto = "=1.4.0"
