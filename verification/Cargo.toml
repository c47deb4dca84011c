[package]
name = "paddleocr-vl"
version = "0.1.0"
edition = "2021"
publish = false

[dependencies]
burn-core = { version = "=0.21.0", default-features = false, features = ["std"] }
burn-nn = { version = "=0.21.0", default-features = false, features = ["std"] }
burn-store = { version = "=0.21.0", default-features = false, features = ["std", "safetensors"] }
clap = { version = "=4.6.7", features = ["derive"] }
image = { version = "=0.25.10", default-features = false, features = ["bmp", "gif", "jpeg", "png", "tiff", "webp"] }
indicatif = "*"
mlx-rs = { version = "=0.33.0", default-features = false }
regex = "=1.13.1"
serde = { version = "=1.0.229", features = ["derive"] }
serde_json = "=1.0.154"
tokenizers = { version = "=0.22.2", default-features = false, features = ["fancy-regex"] }
