[package]
name = "fractal_board"
version = "0.1.0"
edition = "2021"
publish = false

[dependencies]
eframe = { version = "0.31", default-features = false, features = ["glow", "x11"] }
egui = { version = "0.31", default-features = false }
