[package]
name = "rusthello"
version = "0.1.0"
edition = "2021"
publish = false

[dependencies]
rayon = "1"
time = "0.1"
termion = "*"
