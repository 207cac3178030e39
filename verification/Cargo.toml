[package]
name = "shame-gui"
version = "0.1.0"
edition = "2021"
publish = false

[dependencies]
bytemuck = "1"
taffy = "*"
wgpu = "*"
winit = "*"
pollster = "*"
glyphon = "*"
cosmic-text = "*"
windows-sys = "*"
