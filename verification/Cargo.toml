[package]
name = "wtfis"
version = "0.1.0"
edition = "2021"
publish = false

[dependencies]
crossterm = "0.28"
dirs = "6"
ratatui = "0.29"
serde = { version = "1", features = ["derive"] }
toml = "0.8"
walkdir = "2"
