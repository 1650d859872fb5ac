[package]
name = "pipa_playground"
version = "0.1.0"
edition = "2021"
publish = false

[dependencies]
serde = { version = "=1.0.229", features = ["derive"] }
egui = "=0.29.1"
eframe = { version = "=0.29.1", default-features = false, features = ["default_fonts", "glow", "persistence"] }
