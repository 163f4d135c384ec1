[package]
name = "klotski"
version = "0.1.0"
edition = "2021"
publish = false

[dependencies]
itertools = "0.9"
rand = "0.7"
