[package]
name = "fop_verified"
version = "0.1.0"
edition = "2021"
publish = false

[dependencies]
ttf-parser = "=0.25.1"
png = "*"
tiny-skia = "*"
