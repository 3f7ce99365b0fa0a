[package]
name = "oracle"
version = "0.1.0"
edition = "2021"
publish = false

[dependencies]
lite-json = "0.1"
sp-runtime = "*"
sp-io = "*"
sp-core = "*"
parity-scale-codec = "*"
