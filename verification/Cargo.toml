[package]
name = "celestial"
version = "0.1.0"
edition = "2021"
publish = false

[dependencies]
atomic_float = "1"
egui = "0.29"
eframe = { version = "0.29", default-features = false, features = ["glow", "x11", "default_fonts"] }
