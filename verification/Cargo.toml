[package]
name = "coveapi"
version = "0.1.0"
edition = "2021"
publish = false

[dependencies]
float_eq = "1"
json = "0.12"
lazy_static = "1.4"
linked-hash-map = "0.5"
regex = "1"
reqwest = { version = "0.11", features = ["blocking"] }
url = "2"
yaml-rust = "0.4"
