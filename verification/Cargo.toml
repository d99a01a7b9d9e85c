[package]
name = "rnote"
version = "0.1.0"
edition = "2021"
publish = false

[dependencies]
anyhow = "=1.0.104"
chrono = { version = "=0.4.45", features = ["serde"] }
log = "=0.4.35"
nalgebra = { version = "=0.30.1", features = ["serde-serialize"] }
parry2d-f64 = { version = "0.8", features = ["serde-serialize"] }
rand = "=0.8.8"
serde = { version = "=1.0.229", features = ["derive"] }
