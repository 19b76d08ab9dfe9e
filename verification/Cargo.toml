[package]
name = "bench_kernels"
version = "0.1.0"
edition = "2021"
publish = false

[dependencies]
rand = "0.9"
core_affinity = "0.8"
rayon = "1"
