[package]
name = "karaoke"
version = "0.1.0"
edition = "2021"
publish = false

[dependencies]
regex = "=1.13.1"
iced = { version = "=0.14.0", default-features = false, features = ["tiny-skia", "image", "tokio", "x11"] }
