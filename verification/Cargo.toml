[package]
name = "bcp_rs"
version = "0.1.0"
edition = "2021"
publish = false

[dependencies]
num-bigint = { version = "=0.4.8", features = ["rand"] }
num-modular = { version = "=0.5.1", features = ["num-bigint"] }
num-prime = "=0.4.4"
rand = "=0.8.8"
rand_core = "=0.6.4"
rand_chacha = "=0.3.1"
base64 = "=0.13.1"
