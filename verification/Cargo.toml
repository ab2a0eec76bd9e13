[package]
name = "texla"
version = "0.1.0"
edition = "2021"
publish = false

[dependencies]
bevy = { version = "0.15", default-features = false }
crossterm = "0.28"
itertools = "=0.14.0"
tungstenite = "0.24"
unicode-segmentation = "=1.12.0"
