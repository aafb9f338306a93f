[package]
name = "poulpy_blck_ecd"
version = "0.1.0"
edition = "2021"
publish = false

[dependencies]
anyhow = "=1.0.104"
num-complex = "=0.4.6"
num-traits = "=0.2.19"
