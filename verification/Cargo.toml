[package]
name = "ngi"
version = "0.1.0"
edition = "2021"
publish = false

[dependencies]
anyhow = "1"
clap = { version = "4", features = ["derive"] }
ignore = "0.4"
memmap2 = "0.9"
rayon = "1"
regex = "1"
regex-syntax = "0.8"
