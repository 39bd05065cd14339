[package]
name = "grid_game"
version = "0.1.0"
edition = "2021"
publish = false

[dependencies]
ansi_term = "0.12"
clearscreen = "*"
tokio = { version = "1", features = ["full"] }
