[package]
name = "vel0city"
version = "0.1.0"
edition = "2021"
publish = false

[dependencies]
nalgebra = "0.33"
