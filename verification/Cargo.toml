[package]
name = "pinturapp"
version = "0.1.0"
edition = "2021"
publish = false

[dependencies]
bytemuck = { version = "*", features = ["derive"] }
eframe = { version = "*", default-features = false, features = ["wgpu", "default_fonts", "x11"] }
egui-wgpu = "*"
env_logger = "*"
glam = "*"
image = { version = "*", default-features = false, features = ["png", "jpeg", "bmp", "tga"] }
libloading = "*"
pollster = "*"
raw-window-handle = "*"
rfd = "*"
serde = { version = "*", features = ["derive"] }
serde_json = "*"
windows-sys = { version = "*", features = ["Win32_Foundation", "Win32_UI_Input_Pointer", "Win32_UI_WindowsAndMessaging"] }
wintab_lite = "*"
zip = { version = "*", default-features = false, features = ["deflate"] }
