[package]
name = "oxeylyzer"
version = "0.1.0"
edition = "2021"
publish = false

[dependencies]
serde = { version = "=1.0.229", features = ["derive"] }
serde_json = "=1.0.151"
toml = "=1.1.6"
anyhow = "=1.0.104"
rayon = "=1.12.0"
indicatif = "=0.18.6"
ansi_rgb = "=0.2.0"
rgb = "=0.8.53"
