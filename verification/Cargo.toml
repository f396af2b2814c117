[package]
name = "msat"
version = "0.1.0"
edition = "2021"
publish = false

[dependencies]
rsat = "*"
solhop-types = "*"
