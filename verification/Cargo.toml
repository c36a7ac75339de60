[package]
name = "cgol"
version = "0.1.0"
edition = "2021"
publish = false

[dependencies]
clap = "4"
itertools = "0.10"
rand = "0.8"
