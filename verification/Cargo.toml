[package]
name = "waybar_widgets"
version = "0.1.0"
edition = "2021"
publish = false

[dependencies]
sysinfo = { version = "0.30", default-features = false }
