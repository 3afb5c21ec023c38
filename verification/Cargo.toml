[package]
name = "wano"
version = "0.1.0"
edition = "2021"
publish = false

[dependencies]
anyhow = "1"
calloop = "0.14"
calloop-wayland-source = "0.4"
clap = { version = "4", features = ["derive"] }
eframe = { version = "*", default-features = false, features = ["default_fonts", "glow", "wayland"] }
env_logger = "0.11"
log = "0.4"
notify = "*"
serde = { version = "1", features = ["derive"] }
signal-hook = "*"
toml = "*"
wayland-client = "0.31"
wayland-protocols-wlr = { version = "0.3", features = ["client"] }
