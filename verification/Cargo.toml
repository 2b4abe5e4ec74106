[package]
name = "rescue_block_cipher"
version = "0.1.0"
edition = "2021"
publish = false

[dependencies]
bellman_ce = "*"
franklin-crypto = "=0.1.0"
rand = "=0.4.6"
