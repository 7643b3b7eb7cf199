[package]
name = "fleet_battle"
version = "0.1.0"
edition = "2021"
publish = false

[dependencies]
itertools = "0.10"
rand = "0.8"
sdl2 = { version = "0.35", features = ["gfx", "ttf"] }
vecmat = "*"
