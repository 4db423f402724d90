[package]
name = "gomoku_lib"
version = "0.1.0"
edition = "2021"
publish = false

[dependencies]
rayon = "1"
regex = "1"
clap = "3"
num_cpus = "1"
text_io = "0.1"
