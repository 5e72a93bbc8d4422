[package]
name = "cafq"
version = "0.1.0"
edition = "2021"
publish = false

[dependencies]
flate2 = "1"
clap = "*"
walkdir = "2"
rayon = "1"
indicatif = "*"
