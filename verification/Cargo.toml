[package]
name = "dashu_int"
version = "0.1.0"
edition = "2021"
publish = false

[dependencies]
dashu-base = "*"
num-modular = "*"

[dev-dependencies]
rand = "0.8"
