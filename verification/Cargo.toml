[package]
name = "pcp"
version = "0.1.0"
edition = "2021"
publish = false

[dependencies]
num_cpus = "*"
clap = { version = "*", features = ["derive"] }
filetime = "*"
indicatif = "*"
rayon = "*"
walkdir = "*"
os_str_bytes = "*"
