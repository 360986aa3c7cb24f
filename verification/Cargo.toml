[package]
name = "rust_git"
version = "0.1.0"
edition = "2021"
publish = false

[dependencies]
sha1 = "0.10"
hex = "0.4"
flate2 = "1"
tar = "0.4"
walkdir = "2"
tempfile = "3"
anyhow = "1"
