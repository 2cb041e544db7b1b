[package]
name = "ddo"
version = "0.1.0"
edition = "2021"
publish = false

[dependencies]
rustc-hash = "1.1"
metrohash = "1.0"
compare = "0.1"
