[package]
name = "raytracer"
version = "0.1.0"
edition = "2021"
publish = false

[dependencies]
rand = "0.8"
rayon = "1"
indicatif = "0.17"
image = { version = "0.24", default-features = false, features = ["png"] }
