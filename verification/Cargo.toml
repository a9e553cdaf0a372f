[package]
name = "solo_chess"
version = "0.1.0"
edition = "2021"
publish = false

[dependencies]
crossterm = "0.28"
