[package]
name = "mortar"
version = "0.1.0"
edition = "2021"
publish = false

[dependencies]
emojis = "=0.9.1"
normalize-path = "=0.2.2"
rhai = "=1.27.0"
unicode-segmentation = "=1.13.3"
uuid = { version = "=1.29.0", features = ["v4"] }

[dev-dependencies]
fancy-regex = "=0.19.2"
regex = "=1.13.1"
