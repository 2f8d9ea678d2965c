[package]
name = "fitslook"
version = "0.1.0"
edition = "2021"
publish = false

[dependencies]
byteorder = "1"
flate2 = "1"
url = "2"
log = "0.4"
env_logger = "0.11"
ndarray = "0.16"
colorous = "1"
eframe = { version = "0.31", default-features = false, features = ["default_fonts", "glow", "x11"] }
egui = "0.31"
egui_plot = "0.31"
rfd = { version = "0.15", default-features = false, features = ["xdg-portal", "tokio"] }
