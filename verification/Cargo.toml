[package]
name = "rusty_ray"
version = "0.1.0"
edition = "2021"
publish = false

[dependencies]
clap = "4"
image = { version = "0.25", default-features = false, features = ["png", "hdr"] }
nalgebra = { version = "0.33", features = ["serde-serialize"] }
ndarray = { version = "0.16", features = ["rayon"] }
rand = "0.8"
ron = "0.8"
serde = { version = "1", features = ["derive"] }
serde_json = "1"
