[package]
name = "uiasub_code_benchmark"
version = "0.1.0"
edition = "2021"

[dependencies]
rand = "0.9"
rayon = "1"
