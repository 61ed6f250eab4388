[package]
name = "benone"
version = "0.1.0"
edition = "2021"
publish = false

[dependencies]
failure = "0.1"
fnv = "1.0"
rand = "0.4"
time = "0.1"
