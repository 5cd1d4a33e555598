[package]
name = "rusty_tags"
version = "0.1.0"
edition = "2021"
publish = false

[dependencies]
rustc-serialize = "0.3"
tempdir = "0.3"
clap = "2"
