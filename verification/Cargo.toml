[package]
name = "raycaster"
version = "0.1.0"
edition = "2021"
publish = false

[dependencies]
num = "0.4"
nalgebra = { version = "*", default-features = false, features = ["std"] }
