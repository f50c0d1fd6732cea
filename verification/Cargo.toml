[package]
name = "icounter"
version = "0.1.0"
edition = "2021"
publish = false

[dependencies]
anyhow = "1"
colored = "2"
itertools = "0.12"
ptree = "0.4"
rayon = "1"
structopt = "0.3"
walkdir = "2"
