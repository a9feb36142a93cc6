[package]
name = "seed_finder"
version = "0.1.0"
edition = "2021"
publish = false

[dependencies]
bytemuck = "*"
eframe = { version = "*", default-features = false, features = ["default_fonts", "glow", "x11"] }
pollster = "*"
rayon = "*"
rfd = "*"
wgpu = "*"
