[package]
name = "str_distance"
version = "0.1.0"
edition = "2021"
publish = false

[dev-dependencies]
strsim = "*"
