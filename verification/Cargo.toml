[package]
name = "difftool"
version = "0.1.0"
edition = "2021"
publish = false

[dependencies]
blake3 = "1"
clap = { version = "4", features = ["derive"] }
fastcdc = "3"
fs2 = "0.4"
indicatif = "0.17"
memmap2 = "0.9"
rayon = "1"
serde = { version = "1", features = ["derive"] }
serde_json = "1"
tch = "*"
walkdir = "2"
