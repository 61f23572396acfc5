[package]
name = "ratatui_elemental"
version = "0.1.0"
edition = "2021"
publish = false

[dependencies]
generational-arena = "0.2"
glam = "*"
ratatui = { version = "*", default-features = false }
smallbox = "*"
