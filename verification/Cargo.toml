[package]
name = "lbm"
version = "0.1.0"
edition = "2021"
publish = false

[dependencies]
arrayfire = "3.8"
time = "0.1"
