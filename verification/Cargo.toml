[package]
name = "qbasic_rs"
version = "0.1.0"
edition = "2021"
publish = false

[dependencies]
cxx = "=1.0.205"
