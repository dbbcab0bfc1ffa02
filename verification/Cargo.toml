[package]
name = "wavepop"
version = "0.1.0"
edition = "2021"
publish = false

[dependencies]
suffix = "*"
hound = "*"
rustfft = "*"
rodio = { version = "*", default-features = false }
piston_window = "*"
gfx_device_gl = "*"
piston2d-graphics = "*"
image = { version = "*", default-features = false }
svg = "*"
nsvg = "*"
