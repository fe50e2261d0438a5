[package]
name = "randomized_fpt"
version = "0.1.0"
edition = "2021"
publish = false

[dependencies]
petgraph = "*"
rand = "0.8"
clap = { version = "4", features = ["derive"] }
