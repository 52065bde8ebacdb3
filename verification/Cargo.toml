[package]
name = "mosaic_art"
version = "0.1.0"
edition = "2021"
publish = false

[dependencies]
image = "=0.25.10"
prog_rs = "=0.2.0"
