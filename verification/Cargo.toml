[package]
name = "blob_world"
version = "0.1.0"
edition = "2021"
publish = false

[dependencies]
bytemuck = { version = "1", features = ["derive", "min_const_generics"] }
egui = { version = "0.31", default-features = false, features = ["default_fonts"] }
egui-wgpu = { version = "0.31", default-features = false }
egui-winit = { version = "0.31", default-features = false, features = ["x11"] }
env_logger = { version = "0.11", default-features = false }
pollster = "0.4"
wgpu = { version = "24", default-features = false, features = ["wgsl"] }
winit = { version = "0.30", default-features = false, features = ["x11", "rwh_06"] }
