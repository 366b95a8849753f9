[package]
name = "xirr"
version = "0.3.0"
edition = "2021"
publish = false

[dependencies]
time = "0.3"
napi = "2"
napi-derive = "2"
