[package]
name = "xwitcher"
version = "0.1.0"
edition = "2021"
publish = false

[dependencies]
anyhow = "1"
image = "0.25"
x11 = "2"
x11rb = "0.13"
