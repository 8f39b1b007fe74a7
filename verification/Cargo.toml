[package]
name = "chess_driller"
version = "0.1.0"
edition = "2021"
publish = false

[dependencies]
anyhow = "*"
chess = "*"
sdl2 = { version = "*", features = ["image"] }
serde = { version = "*", features = ["derive"] }
tracing = "*"
