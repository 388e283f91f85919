[package]
name = "ghostty_terminal"
version = "0.1.0"
edition = "2021"
publish = false

[dependencies]
base64 = "0.22"
unicode-width = "0.2"
