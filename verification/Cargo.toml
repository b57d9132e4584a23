[package]
name = "openpbr"
version = "0.1.0"
edition = "2021"
publish = false

[dependencies]
glam = { version = "=0.34.2", features = ["bytemuck"] }
rand = "=0.10.3"
obj-rs = "*"
bytemuck = { version = "=1.25.2", features = ["derive"] }
env_logger = "=0.11.11"
eframe = { version = "=0.36.2", default-features = false, features = ["wgpu", "default_fonts", "wayland", "x11"] }
egui-file-dialog = "=0.15.0"
