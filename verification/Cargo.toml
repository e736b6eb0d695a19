[package]
name = "wave_collapse"
version = "0.1.0"
edition = "2021"
publish = false

[dependencies]
array2d = "*"
itertools = "*"
serde = { version = "1", features = ["derive"] }
serde_json = "1"
sdl2 = { version = "*", features = ["image"] }
