[package]
name = "redline"
version = "0.1.0"
edition = "2021"
publish = false

[dependencies]
glam = { version = "=0.33.12", features = ["mint"] }
mint = "=0.5.9"
serde = { version = "=1.0.229", features = ["derive"] }
serde_json = "=1.0.154"
ron = "=0.12.3"
log = "=0.4.35"
env_logger = { version = "=0.11.11", default-features = false }
winit = { version = "=0.30.13", default-features = false, features = ["rwh_06", "x11", "wayland", "wayland-dlopen"] }
egui = { version = "=0.34.3", default-features = false, features = ["default_fonts"] }
egui-winit = { version = "=0.34.3", default-features = false, features = ["wayland", "x11"] }
blade-engine = "=0.2.0"
blade-graphics = "=0.9.0"
blade-render = "=0.6.0"
blade-particle = "=0.2.0"
web-time = "=1.1.0"
