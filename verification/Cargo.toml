[package]
name = "strop"
version = "0.1.0"
edition = "2021"
publish = false

[dependencies]
hyphenation = "=0.8.4"
unicode-segmentation = "=1.13.3"
unicode-normalization = "=0.1.26"
serde = { version = "=1.0.229", features = ["derive"] }
serde_json = "=1.0.154"

[dev-dependencies]
hyphenation = { version = "=0.8.4", features = ["embed_all"] }
bincode = "=1.3.3"
