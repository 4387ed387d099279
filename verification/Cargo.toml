[package]
name = "yave"
version = "0.1.0"
edition = "2021"
publish = false

[dependencies]
anyhow = "1"
ash = "0.38"
ash-window = "0.13"
bytemuck = { version = "1", features = ["derive"] }
env_logger = "0.11"
glam = "0.29"
image = { version = "0.25", default-features = false, features = ["png"] }
rayon = "1"
winit = { version = "0.30", default-features = false, features = ["rwh_06", "x11"] }
