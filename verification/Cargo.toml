[package]
name = "raftlog"
version = "0.1.0"
edition = "2021"
publish = false

[dependencies]
pasta_curves = "*"
blake2b_simd = "*"
rand = "0.8"
async-channel = "*"
async-std = "*"
futures = "*"
log = "*"
simplelog = "*"
crypto_box = "*"
serde = { version = "*", features = ["derive"] }
