[package]
name = "genhat"
version = "0.1.0"
edition = "2021"
publish = false

[dependencies]
base64 = "0.22"
docx-rs = "0.4"
image = { version = "0.25", default-features = false, features = ["png", "jpeg", "gif", "bmp", "webp", "tiff"] }
serde_json = "1"
uuid = { version = "1", features = ["v4"] }
xml-rs = "0.8"
zip = { version = "2", default-features = false, features = ["deflate"] }
