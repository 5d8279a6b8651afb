[package]
name = "mucalc"
version = "0.1.0"
edition = "2021"
publish = false

[dependencies]
indexmap = "2"
rustc-hash = "2"
rand = "0.8"
anyhow = "1"
either = "1"
chumsky = "0.9"
