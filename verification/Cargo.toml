[package]
name = "aerate"
version = "0.1.0"
edition = "2021"
publish = false

[dependencies]
rust-crypto = "0.2"
walkdir = "2"
clap = "2"
