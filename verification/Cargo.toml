[package]
name = "shamir"
version = "0.1.0"
edition = "2021"
publish = false

[dependencies]
rust-gmp = "*"
num = "0.4"
rand = "0.8"
