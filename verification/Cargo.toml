[package]
name = "cargo-toml-fmt"
version = "0.1.0"
edition = "2021"
publish = false

[dependencies]
anyhow = "=1.0.104"
serde = { version = "=1.0.229", features = ["derive"] }
toml_edit = "=0.14.4"
walkdir = "=2.5.0"
