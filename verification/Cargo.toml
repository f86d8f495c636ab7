[package]
name = "cart_lin"
version = "0.1.0"
edition = "2021"
publish = false

[dev-dependencies]
ndarray = "*"
nalgebra = "*"
