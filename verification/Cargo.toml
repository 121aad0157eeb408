[package]
name = "noir_halo2_backend"
version = "0.1.0"
edition = "2021"
publish = false

[dependencies]
acvm = "*"
halo2curves = "*"
halo2-base = "*"
halo2-ecc = "*"
rand = "0.8"
