[package]
name = "walker_constellation_calculator"
version = "0.1.0"
edition = "2021"
publish = false

[dependencies]
eframe = { version = "*", default-features = false, features = ["default_fonts", "glow", "persistence", "x11"] }
egui = "*"
serde = { version = "*", features = ["derive"] }
