[package]
name = "rdirstat"
version = "0.1.0"
edition = "2021"
publish = false

[dependencies]
chrono = "0.4"
crossterm = "0.28"
eframe = { version = "0.31", default-features = false, features = ["default_fonts", "glow", "x11"] }
egui_extras = { version = "0.31", default-features = false }
ignore = "0.4"
num_cpus = "1"
ratatui = "0.29"
walkdir = "2"
