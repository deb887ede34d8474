[package]
name = "beam_walk"
version = "0.1.0"
edition = "2021"
publish = false

[dependencies]
proconio = "*"
