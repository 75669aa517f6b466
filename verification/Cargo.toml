[package]
name = "datatoolkit_football"
version = "0.1.0"
edition = "2021"
publish = false

[dependencies]
chrono = "0.4"
csv = "1"
ndarray = "0.15"
poloto = "*"
serde = { version = "1", features = ["derive"] }
serde_json = "1"
