[package]
name = "rustman"
version = "0.1.0"
edition = "2021"
publish = false

[dependencies]
rand = "0.7"
sdl2 = { version = "0.34", features = ["gfx", "image", "ttf"] }
log = "0.4"
pretty_env_logger = "0.4"
