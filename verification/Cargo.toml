[package]
name = "img_hotkeys"
version = "0.1.0"
edition = "2021"
publish = false

[dependencies]
inputbot = "*"
clipboard-win = "*"
