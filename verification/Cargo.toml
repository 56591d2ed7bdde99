[package]
name = "image_segmenter"
version = "0.1.0"
edition = "2021"
publish = false

[dependencies]
egui = "0.29"
eframe = { version = "0.29", default-features = false, features = ["default_fonts", "glow", "x11"] }
image = { version = "0.25", default-features = false, features = ["png", "jpeg", "bmp", "tiff", "webp"] }
rfd = { version = "0.15", default-features = false, features = ["xdg-portal", "async-std"] }
