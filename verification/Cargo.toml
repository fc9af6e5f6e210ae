[package]
name = "parcut"
version = "0.1.0"
edition = "2021"

[dependencies]
rayon = "*"
memmap2 = "*"
clap = { version = "*", features = ["derive"] }
