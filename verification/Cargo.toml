[package]
name = "find_duplicates"
version = "0.1.0"
edition = "2021"
publish = false

[dependencies]
crc32fast = "=1.5.4"
walkdir = "=2.5.0"
eframe = { version = "*", default-features = false, features = ["default_fonts", "glow", "x11"] }
egui = "*"
rfd = { version = "*", default-features = false, features = ["xdg-portal", "tokio"] }
open = "*"
dark-light = "*"
