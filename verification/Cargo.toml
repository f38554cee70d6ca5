[package]
name = "rmbrowser"
version = "0.1.0"
edition = "2021"
publish = false

[dependencies]
libremarkable = "0.7"
