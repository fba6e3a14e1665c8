[package]
name = "ligesis"
version = "0.1.0"
edition = "2021"
publish = false

[dependencies]
blake3 = "1"
p3-dft = "*"
p3-field = "*"
p3-goldilocks = "*"
rand = "*"
rs_merkle = "*"
