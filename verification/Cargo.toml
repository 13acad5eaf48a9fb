[package]
name = "bins"
version = "0.1.0"
edition = "2021"
publish = false

[dependencies]
linked-hash-map = "*"
url = "*"
toml = "0.2"
clap = "2"
hyper = "0.10"
rustc-serialize = "0.3"
