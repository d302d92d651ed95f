[package]
name = "triton_vm"
version = "0.1.0"
edition = "2021"
publish = false

[dependencies]
anyhow = "1"
itertools = "0.10"
ndarray = "0.15"
num-traits = "0.2"
strum = "0.24"
twenty-first = "*"
