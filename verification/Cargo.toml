[package]
name = "rust_1brc"
version = "0.1.0"
edition = "2021"
publish = false

[dependencies]
rand = "0.8"
rand_distr = "0.4"
rayon = "1"
memmap2 = "0.9"
clap = { version = "4", features = ["derive"] }
anyhow = "1"
byte-unit = "5"
