[package]
name = "th420_display"
version = "0.1.0"
edition = "2021"
publish = false

[dependencies]
ab_glyph = "0.2"
anyhow = "1"
clap = { version = "4", default-features = false, features = ["std", "derive", "help", "usage", "error-context"] }
dirs = "6"
eframe = { version = "0.31", default-features = false, features = ["default_fonts", "glow", "x11"] }
image = { version = "=0.25.10", default-features = false, features = ["bmp", "gif", "jpeg", "png", "tiff", "webp"] }
imageproc = { version = "=0.25.1", default-features = false }
jpeg-encoder = "=0.6.1"
libc = "0.2"
nvml-wrapper = "0.12"
nvml-wrapper-sys = "0.9"
serde = { version = "1", features = ["derive"] }
toml = "0.9"
