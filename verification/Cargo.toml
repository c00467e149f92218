[package]
name = "gemsleuth"
version = "0.1.0"
edition = "2021"
publish = false

[dependencies]
rayon = "1"
eframe = { version = "*", default-features = false, features = ["default_fonts", "glow", "x11", "wayland"] }
image = { version = "*", default-features = false, features = ["png"] }
