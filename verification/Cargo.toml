[package]
name = "bumbling"
version = "0.1.0"
edition = "2021"
publish = false

[dependencies]
chrono = "=0.4.45"
chrono-tz = "=0.10.4"
curl = "=0.4.51"
html5ever = "=0.39.0"
markup5ever_rcdom = "=0.39.0"
once_cell = "=1.21.4"
regex = "=1.13.1"
sdl2 = { version = "=0.38.0", features = ["ttf"] }
