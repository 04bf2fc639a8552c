[package]
name = "box_menu"
version = "0.1.0"
edition = "2021"
publish = false

[dependencies]
freedesktop-icons = "*"
freedesktop-desktop-entry = "*"
confy = "*"
serde = { version = "*", features = ["derive"] }
