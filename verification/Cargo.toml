[package]
name = "core_latency"
version = "0.1.0"
edition = "2021"
publish = false

[dependencies]
ansi_term = "0.12"
cache-padded = "1"
clap = { version = "3.2", features = ["derive"] }
core_affinity = "*"
crossbeam-utils = "0.8"
libc = "0.2"
ndarray = "0.15"
quanta = "0.10"
