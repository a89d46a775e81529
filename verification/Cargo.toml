[package]
name = "polarcoaster"
version = "0.1.0"
edition = "2021"
publish = false

[dependencies]
polar-core = "=0.20.1"
raylib = "=3.7.0"
serde = { version = "=1.0.229", features = ["derive"] }
serde_json = "=1.0.154"
