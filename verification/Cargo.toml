[package]
name = "rastermap"
version = "0.1.0"
edition = "2021"
publish = false

[dependencies]
line_drawing = "*"
rusttype = "*"
sdl2 = "*"
serde = { version = "*", features = ["derive"] }
