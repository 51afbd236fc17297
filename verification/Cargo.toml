[package]
name = "glyphfall"
version = "0.1.0"
edition = "2021"
publish = false

[dependencies]
quad-rand = "0.2"
macroquad = "0.4"
serde = { version = "1", features = ["derive"] }
toml = "0.8"
include_dir = "0.7"
directories = "5"
symphonia = { version = "0.5", features = ["mp3"] }
quad-alsa-sys = "0.3"
libc = "0.2"
