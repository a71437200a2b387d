[package]
name = "tts_frontend"
version = "0.1.0"
edition = "2021"
publish = false

[dependencies]
anyhow = "*"
csv = "*"
deunicode = "*"
num2words = "*"
ssml-parser = "*"
unicode-segmentation = "*"
