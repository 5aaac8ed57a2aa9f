[package]
name = "sequintools"
version = "0.1.0"
edition = "2021"
publish = false

[dependencies]
rand = "0.9"
rand_pcg = "0.9"
csv = "1"
rust-htslib = "0.49"
clap = { version = "4", features = ["derive"] }
anyhow = "1"
thiserror = "2"
rayon = "1"
