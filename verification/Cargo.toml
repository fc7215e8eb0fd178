[package]
name = "ball_game"
version = "0.1.0"
edition = "2021"
publish = false

[dependencies]
amethyst = { version = "=0.15.3", default-features = false, features = ["renderer"] }
log = "0.4"
