[package]
name = "voyna-i-mir"
version = "0.1.0"
edition = "2021"
publish = false

[dependencies]
serde = { version = "1", features = ["derive"] }
serde_json = "1"
serde_yaml_ng = "*"
eframe = { version = "*", default-features = false, features = ["default_fonts", "glow", "x11"] }
rodio = "*"
