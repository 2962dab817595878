[package]
name = "sparse_lu"
version = "0.1.0"
edition = "2021"
publish = false

[dependencies]
fastrand = "*"
rand = "*"
rustc_apfloat = "*"
