[package]
name = "dungeon_explorer"
version = "0.1.0"
edition = "2021"
publish = false

[dependencies]
rand = "0.8"
sdl2 = "*"
structopt = "0.3"
