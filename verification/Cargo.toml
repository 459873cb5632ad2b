[package]
name = "lps"
version = "1.0.1"
edition = "2021"
publish = false

[dependencies]
num_cpus = "1"
clap = "2"
