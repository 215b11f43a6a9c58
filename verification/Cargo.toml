[package]
name = "rust_complex"
version = "0.1.0"
edition = "2021"

[dev-dependencies]
approx = "0.5"
