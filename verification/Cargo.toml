[package]
name = "cosmic_text"
version = "0.1.0"
edition = "2021"
publish = false

[dependencies]
fontdb = "=0.24.0"
ropey = "=1.6.1"
lru = "=0.19.0"
rangemap = "=1.8.0"
unicode-segmentation = "=1.13.3"
rgb = "=0.8.53"
unicode-bidi = "=0.3.18"
modit = "*"
