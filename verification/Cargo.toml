[package]
name = "spacesniffer1000"
version = "0.1.0"
edition = "2021"
publish = false

[dependencies]
anyhow = "1"
crossbeam = "0.8"
eframe = { version = "*", default-features = false, features = ["default_fonts", "glow", "x11", "wayland", "persistence"] }
egui = "*"
humansize = "2"
jwalk = "0.8"
rfd = "*"
trash = "*"

[dev-dependencies]
tempfile = "3"
