[package]
name = "bigdiff"
version = "0.1.0"
edition = "2021"
publish = false

[dependencies]
anyhow = "1"
clap = { version = "4", features = ["derive"] }
encoding_rs = "0.8"
glob = "0.3"
hex = "0.4"
sha2 = "0.10"
similar = "2"
walkdir = "2"
