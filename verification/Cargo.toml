[package]
name = "rdns"
version = "0.1.0"
edition = "2021"
publish = false

[dependencies]
clap = "*"
colored = "*"
dialoguer = "*"
num-format = "*"
rayon = "*"
trust-dns-client = "*"
