[package]
name = "grammar_engine"
version = "0.1.0"
edition = "2021"
publish = false

[dependencies]
rand = "0.8"
regex = "1"
macroquad = "0.4"
miniquad = "0.4"
egui = "*"
egui-macroquad = "*"
