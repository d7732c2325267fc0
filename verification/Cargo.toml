[package]
name = "racah"
version = "0.2.0"
edition = "2021"
publish = false

[dependencies]
num-bigint = "0.4"
num-rational = "0.4"
num-traits = "0.2"

[dev-dependencies]
rand = "0.8"
rand_chacha = "0.3"
