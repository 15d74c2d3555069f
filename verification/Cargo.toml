[package]
name = "sudoku_engine"
version = "0.1.0"
edition = "2021"
publish = false

[dependencies]
array2d = "*"
rand = "0.8"
serde = { version = "*", features = ["derive"] }
serde_json = "*"
