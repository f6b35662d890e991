[package]
name = "zinifier"
version = "0.1.0"
edition = "2021"
publish = false

[dependencies]
camino = "=1.2.6"
markdown-it = "=0.6.1"
markdown-it-footnote = "=0.2.0"
serde = { version = "=1.0.229", features = ["derive"] }
toml = { version = "=1.1.7", features = ["preserve_order"] }
