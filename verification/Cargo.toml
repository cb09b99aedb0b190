[package]
name = "battle_marine"
version = "0.1.0"
edition = "2021"
publish = false

[dependencies]
rand = "*"
