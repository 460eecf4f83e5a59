[package]
name = "premiere_hunter"
version = "0.1.0"
edition = "2021"
publish = false

[dependencies]
flate2 = "*"
clap = { version = "*", features = ["derive"] }
ctrlc = "*"
indicatif = "*"
rayon = "*"
serde = { version = "*", features = ["derive"] }
serde_yaml = "*"
walkdir = "*"
