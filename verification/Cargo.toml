[package]
name = "hap"
version = "0.1.0"
edition = "2021"
publish = false

[dependencies]
snap = "=1.1.2"
texpresso = "=2.0.2"
bcdec_rs = "=0.2.1"
texture2ddecoder = "=0.1.2"
rayon = "=1.12.0"
thiserror = "2"
clap = { version = "4", features = ["derive"] }
image = { version = "0.25", default-features = false, features = ["png", "jpeg", "tiff", "bmp", "webp", "tga"] }
env_logger = { version = "0.11", default-features = false }
chrono = { version = "0.4", default-features = false, features = ["clock"] }
crossbeam-channel = "0.5"
pollster = "0.4"
bytemuck = { version = "1", features = ["derive"] }
eframe = { version = "0.34", default-features = false, features = ["wgpu", "default_fonts", "x11"] }
wgpu = { version = "29", default-features = false, features = ["wgsl", "vulkan", "std"] }
rfd = { version = "0.17", default-features = false, features = ["xdg-portal"] }
