[package]
name = "canon_builder"
version = "0.1.0"
edition = "2021"
publish = false

[dependencies]
anyhow = "1"
askama = "*"
minify-html = "*"
serde = { version = "1", features = ["derive"] }
serde_json = "1"
toon-format = "*"
unicode-normalization = "0.1"
