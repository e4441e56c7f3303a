[package]
name = "nirimap"
version = "0.1.0"
edition = "2021"
publish = false

[dependencies]
anyhow = "1"
calloop = "0.14"
calloop-wayland-source = "0.4"
dirs = "6"
env_logger = "0.11"
libc = "0.2"
log = "0.4"
memmap2 = "0.9"
niri-ipc = "*"
notify = "8"
resvg = "*"
serde = { version = "1", features = ["derive"] }
tiny-skia = "*"
toml = "0.9"
wayland-client = "0.31"
wayland-protocols-wlr = { version = "0.3", features = ["client"] }
