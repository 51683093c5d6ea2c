[package]
name = "diskviz"
version = "0.1.0"
edition = "2021"
publish = false

[dependencies]
rayon = "1"
walkdir = "2"
crossbeam-channel = "0.5"
eframe = { version = "0.30", default-features = false, features = ["default_fonts", "glow", "x11"] }
egui = { version = "0.30", default-features = false }
egui_extras = { version = "0.30", default-features = false }
rfd = "0.15"
open = "5"
