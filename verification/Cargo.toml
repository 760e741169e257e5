[package]
name = "safetensors_explorer"
version = "0.1.0"
edition = "2021"
publish = false

[dependencies]
anyhow = "*"
clap = { version = "*", features = ["derive"] }
crossterm = "*"
glob = "*"
safetensors = "*"
serde_json = "*"
