[package]
name = "seqalign"
version = "0.1.0"
edition = "2021"
publish = false

[dependencies]
clap = { version = "*", features = ["derive"] }
ocl = "*"
rayon = "*"
pretty_assertions = "*"
