[package]
name = "speech_audio"
version = "0.1.0"
edition = "2021"
publish = false

[dependencies]
hound = "3.5"
tempfile = "3"
ffmpeg-next = { version = "*", default-features = false, features = ["codec", "format", "software-resampling"] }
