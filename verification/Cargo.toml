[package]
name = "text_raster"
version = "0.1.0"
edition = "2021"
publish = false

[dependencies]
image = "=0.24.9"
cosmic-text = "=0.9.0"
