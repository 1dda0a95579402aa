[package]
name = "point_registry"
version = "0.1.0"
edition = "2021"
publish = false

[dependencies]
arrayvec = "0.7"
lazy_static = "1"
orx-concurrent-vec = "*"
rand = "*"
strum = { version = "*", features = ["derive"] }
