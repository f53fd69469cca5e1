[package]
name = "hyperion"
version = "0.1.0"
edition = "2021"
publish = false

[dependencies]
anyhow = "1"
dirs = "*"
eframe = { version = "*", default-features = false, features = ["default_fonts", "glow", "wayland", "x11"] }
egui_plot = { version = "*", default-features = false }
libc = "0.2"
nvml-wrapper = "*"
serde = { version = "1", features = ["derive"] }
serde_json = "1"
toml = "*"

[dev-dependencies]
tempfile = "3"
