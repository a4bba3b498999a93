[package]
name = "douconel"
version = "0.1.0"
edition = "2021"
publish = false

[dependencies]
pathfinding = "*"
rand = "*"
obj = "*"
stl_io = "*"
serde = { version = "*", features = ["derive"] }
serde_json = "*"
petgraph = "*"
priq = "*"
nalgebra = "*"
