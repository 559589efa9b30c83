[package]
name = "seam_carving"
version = "0.1.0"
edition = "2021"
publish = false

[dependencies]
getopts = "0.2"
lodepng = "*"
time = "0.1"
