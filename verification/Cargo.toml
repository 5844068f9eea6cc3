[package]
name = "smart_road"
version = "0.1.0"
edition = "2021"
publish = false

[dependencies]
rand = "0.8"
sdl2 = { version = "0.37", features = ["ttf"] }
image = { version = "0.25", default-features = false, features = ["png"] }
