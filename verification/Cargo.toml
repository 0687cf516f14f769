[package]
name = "nextgen_studio"
version = "0.2.0"
edition = "2021"
publish = false

[dependencies]
encoding_rs = "*"
tempfile = "*"
log = "*"
serde = { version = "*", features = ["derive"] }
serde_json = "*"
image = { version = "*", default-features = false, features = ["png", "jpeg", "bmp"] }
rfd = "*"
eframe = { version = "*", default-features = false, features = ["glow", "default_fonts", "x11", "wayland"] }
