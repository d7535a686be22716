[package]
name = "domparser"
version = "0.1.0"
edition = "2021"
publish = false

[dependencies]
html5ever = "=0.39.0"
markup5ever_rcdom = "=0.39.0"
napi = "=2.16.17"
napi-derive = "=2.16.13"
