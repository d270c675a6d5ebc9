[package]
name = "duplicate_finder"
version = "0.1.0"
edition = "2021"
publish = false

[dependencies]
blake3 = { version = "*", default-features = false, features = ["std"] }
globset = { version = "*", default-features = false }
humansize = "*"
walkdir = "*"
trash = { version = "*", default-features = false }
open = "*"
serde = { version = "*", features = ["derive"] }
rfd = { version = "*", default-features = false, features = ["xdg-portal"] }
eframe = { version = "*", default-features = false, features = ["default_fonts", "glow", "persistence", "x11"] }
egui_extras = { version = "*", default-features = false, features = ["file", "image"] }
