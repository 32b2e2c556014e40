[package]
name = "ckb_native_simulator"
version = "0.1.0"
edition = "2021"
publish = false

[dependencies]
ckb-hash = "0.118"
ckb-types = "0.118"
faster-hex = "0.6"
libloading = "0.8"
