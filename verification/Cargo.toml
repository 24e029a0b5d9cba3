[package]
name = "tetrachrome"
version = "0.1.0"
edition = "2021"
publish = false

[dependencies]
chrono = "0.4"
eframe = { version = "*", default-features = false, features = ["default_fonts", "glow", "x11", "wayland"] }
image = { version = "0.25", default-features = false, features = ["png", "tga", "tiff", "jpeg", "bmp", "exr", "ico"] }
rayon = "1"
rfd = "*"
serde = { version = "1", features = ["derive"] }
serde_json = "1"
windows-sys = { version = "*", features = ["Win32_Foundation", "Win32_UI_WindowsAndMessaging"] }
