[package]
name = "svg_render"
version = "0.1.0"
edition = "2021"
publish = false

[dependencies]
xml-rs = "*"
base64 = "*"
regex = "*"
itertools = "*"
ratatui = "0.23"
crossterm = "0.27"
