[package]
name = "signing_proxy"
version = "0.1.0"
edition = "2021"
publish = false

[dependencies]
colored = "2"
hex = "0.4"
rand = "0.9"
sha2 = "0.10"
