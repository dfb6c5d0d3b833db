[package]
name = "entity_world"
version = "0.1.0"
edition = "2021"
publish = false

[dependencies]
ahash = "=0.8.12"
bytemuck = { version = "=1.25.2", features = ["derive"] }
glam = "=0.34.1"
pollster = "=0.3.0"
rand = "=0.8.8"
slab = "=0.4.12"
uuid = "=1.29.0"
