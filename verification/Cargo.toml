[package]
name = "ooxml_viewer"
version = "0.1.0"
edition = "2021"
publish = false

[dependencies]
zip = "2"
base64 = "0.22"
serde = { version = "1", features = ["derive"] }
