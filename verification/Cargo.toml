[package]
name = "yolo_binding"
version = "0.1.0"
edition = "2021"
publish = false

[dependencies]
serde_json = "1"
tch = "0.18"
image = { version = "0.25", default-features = false, features = ["png", "jpeg"] }
imageproc = { version = "0.25", default-features = false }
ab_glyph = "0.2"
winapi = { version = "0.3", features = ["libloaderapi"] }
reqwest = { version = "0.12", default-features = false, features = ["blocking", "rustls-tls"] }
zip = "2"
indicatif = "0.17"
