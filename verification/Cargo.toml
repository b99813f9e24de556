[package]
name = "voxterra"
version = "0.1.0"
edition = "2021"
publish = false

[dependencies]
bytemuck = { version = "1", features = ["derive"] }
egui = "0.31"
egui-winit = { version = "0.31", default-features = false, features = ["x11"] }
env_logger = "0.11"
glam = "0.29"
log = "0.4"
rayon = "1"
winit = { version = "0.30", default-features = false, features = ["rwh_06", "x11"] }
