[package]
name = "cbor_rewrite"
version = "0.1.0"
edition = "2021"
publish = false

[dependencies]
cbor-data = "=0.8.20"
redis-module = "=2.0.8"

[dev-dependencies]
cborpath = "=0.5.0"
