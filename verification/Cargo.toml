[package]
name = "ckb_fixed"
version = "0.1.0"
edition = "2021"
publish = false

[dependencies]
fixed = "*"
