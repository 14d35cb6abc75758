[package]
name = "btelem"
version = "0.1.0"
edition = "2021"
publish = false

[dependencies]
clap = { version = "=4.6.7", default-features = false, features = ["derive", "std", "help", "usage", "error-context"] }
dirs = "=6.0.0"
eframe = { version = "=0.29.1", default-features = false, features = ["glow", "default_fonts"] }
egui = "=0.29.1"
egui_dock = { version = "=0.14.0", features = ["serde"] }
egui_plot = "=0.29.0"
rfd = { version = "0.15", default-features = false, features = ["xdg-portal", "tokio"] }
serde = { version = "=1.0.229", features = ["derive"] }
serde_json = "=1.0.154"
thiserror = "=1.0.69"
# The window backend of eframe.
winit = { version = "=0.30.13", default-features = false, features = ["x11"] }
