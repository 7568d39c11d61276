[package]
name = "ocr_overlay"
version = "0.1.0"
edition = "2021"
publish = false

[dependencies]
chinese_dictionary = "=2.1.8"
html_parser = "=0.7.0"
tokio = { version = "=1.53.2", default-features = false, features = ["rt-multi-thread", "sync", "time", "macros"] }
image = { version = "=0.25.10", default-features = false, features = ["png", "jpeg"] }
tesseract = "=0.15.2"
abort-on-drop = "=0.2.2"
configparser = "=3.3.0"
serde = { version = "=1.0.229", features = ["derive"] }
serde_json = "=1.0.151"
env_logger = { version = "=0.11.11", default-features = false }
