[package]
name = "tinyrasputin"
version = "0.1.0"
edition = "2021"
publish = false

[dependencies]
rand = "0.7"
clap = "2"
itertools = "0.9"
approx = "0.3"
