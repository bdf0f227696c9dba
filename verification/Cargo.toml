[package]
name = "dmm_lite"
version = "0.1.0"
edition = "2021"
publish = false

[dependencies]
array2d = "0.3"
regex = "1"
winnow = "0.6"
rayon = "1"
byondapi = "*"
eyre = "0.6"
miette = { version = "7", features = ["fancy"] }
typed-arena = "2"
clap = { version = "4", features = ["derive"] }
anyhow = "1"
