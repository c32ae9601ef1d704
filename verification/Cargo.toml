[package]
name = "blst_from_scratch"
version = "0.1.0"
edition = "2021"
publish = false

[dependencies]
blst = "*"
