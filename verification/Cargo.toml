[package]
name = "sway_draw"
version = "0.1.0"
edition = "2021"
publish = false

[dependencies]
tiny-skia = "=0.11.4"
smithay-client-toolkit = "=0.20.0"
wayland-client = "=0.31.15"
log = "=0.4.34"
env_logger = "=0.11.11"
