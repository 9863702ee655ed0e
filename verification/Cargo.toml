[package]
name = "approx_pearson_skew"
version = "0.1.0"
edition = "2021"
publish = false

[dependencies]
micromath = "2"
