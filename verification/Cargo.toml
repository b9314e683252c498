[package]
name = "province_editor"
version = "0.1.0"
edition = "2021"
publish = false

[dependencies]
csv = "=1.4.0"
image = { version = "=0.24.9", default-features = false, features = ["bmp"] }
rand = { version = "=0.8.8", features = ["small_rng"] }
geo = "=0.23.1"
toml = "=0.5.11"
serde = { version = "=1.0.229", features = ["derive"] }
chrono = "=0.4.45"
