[package]
name = "ray_marching"
version = "0.1.0"
edition = "2021"
publish = false

[dependencies]
fixed = "1"
az = "1"
ndarray = "0.15"
nalgebra = { version = "0.32", features = ["serde-serialize"] }
nalgebra-glm = "0.18"
image = { version = "0.24", default-features = false, features = ["png"] }
indicatif = { version = "0.17", features = ["rayon"] }
itertools = "0.10"
rand = "0.8"
rayon = "1"
serde = { version = "1", features = ["derive"] }
serde_json = "1"
tobj = "3"
