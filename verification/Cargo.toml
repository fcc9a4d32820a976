[package]
name = "rfvp_patch"
version = "0.1.0"
edition = "2021"
publish = false

[dependencies]
anyhow = "1"
encoding_rs = "0.8"
flate2 = "1"
log = "0.4"
