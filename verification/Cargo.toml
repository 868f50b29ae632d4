[package]
name = "yolite"
version = "0.1.0"
edition = "2021"
publish = false

[dependencies]
ring = "0.17"
serde = { version = "1", features = ["derive"] }
serde_json = "1"
dirs = "6"
discord-rich-presence = "1"
qrcode = "0.14"
reqwest = { version = "0.12", features = ["json"] }
tokio = { version = "1", features = ["sync"] }
