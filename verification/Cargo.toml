[package]
name = "dat3"
version = "0.1.0"
edition = "2021"
publish = false

[dependencies]
anyhow = "1"
byteorder = "1"
clap = { version = "4", features = ["derive"] }
encoding_rs = "0.8"
flate2 = "1"
rayon = "1"
