[package]
name = "rsrs"
version = "0.1.0"
edition = "2021"
publish = false

[dependencies]
rustc-hash = "=2.1.3"
num_cpus = "=1.17.0"
