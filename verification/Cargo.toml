[package]
name = "tsp_solver"
version = "0.1.0"
edition = "2021"
publish = false

[dependencies]
dashmap = "*"
rayon = "*"
rand = "*"
serde = { version = "*", features = ["derive"] }
serde_json = "*"
