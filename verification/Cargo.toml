[package]
name = "tomatwo"
version = "0.1.0"
edition = "2021"
publish = false

[dependencies]
rand = "*"
rayon = "*"
clap = { version = "4", features = ["derive"] }
memmap2 = "*"
tempfile = "*"
