[package]
name = "black_hole_vis"
version = "0.1.0"
edition = "2021"
publish = false

[dependencies]
glam = "0.29"
image = { version = "0.25", default-features = false, features = ["png"] }
rayon = "1"
