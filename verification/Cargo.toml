[package]
name = "kernel_plugins"
version = "0.1.0"
edition = "2021"
publish = false

[dependencies]
rand = { version = "0.8", default-features = false }
rand_chacha = { version = "0.3", default-features = false }
riscv = "0.10"
sbi-rt = "0.0.4"
