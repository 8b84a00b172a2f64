[package]
name = "solver"
version = "0.1.0"
edition = "2021"
publish = false

[dependencies]
itertools = "*"
colored = "*"
clap = { version = "*", features = ["derive"] }
num_cpus = "*"
num-format = "*"
lazy_static = "*"
num = "*"
bitflags = "*"
