[package]
name = "macchina_render"
version = "0.1.0"
edition = "2021"
publish = false

[dependencies]
ratatui = "0.29"
unicode-width = "0.2"
base64 = "0.22"
image = { version = "0.25", default-features = false, features = ["png", "jpeg", "gif", "bmp", "ico", "webp", "tiff", "pnm", "tga"] }
atty = "0.2"
shellexpand = "3"
