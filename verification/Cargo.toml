[package]
name = "frame_on_faer"
version = "0.1.0"
edition = "2021"
publish = false

[dependencies]
faer = "0.24"
trussx = "*"
gemlab = "*"
russell_lab = "*"
