[package]
name = "filling_polygon"
version = "0.1.0"
edition = "2021"
publish = false

[dependencies]
nalgebra-glm = "*"
