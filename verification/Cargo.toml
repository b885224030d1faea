[package]
name = "cellumina"
version = "0.1.0"
edition = "2021"
publish = false

[dependencies]
grid = "*"
rand = "*"
rayon = "*"
serde = { version = "*", features = ["derive"] }
image = "*"
