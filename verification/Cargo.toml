[package]
name = "dungeon_crawler"
version = "0.1.0"
edition = "2021"
publish = false

[dependencies]
rand = "0.8"
glam = "0.20"
ggez = "0.7"
