[package]
name = "snake_sim"
version = "0.1.0"
edition = "2021"
publish = false

[dependencies]
rand = "0.8"
instant = "0.1"
bytemuck = { version = "1", features = ["derive"] }
winit = "0.27"
wgpu = "0.13"
