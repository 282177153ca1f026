[package]
name = "filematch"
version = "0.1.0"
edition = "2021"
publish = false

[dependencies]
blake3 = "*"
clap = { version = "*", features = ["derive"] }
crossbeam-channel = "*"
num_cpus = "*"
serde_json = "*"
walkdir = "*"
