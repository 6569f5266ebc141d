[package]
name = "diskbytes_core"
version = "0.1.0"
edition = "2021"
publish = false

[dependencies]
objc2 = "0.5"
serde = { version = "1", features = ["derive"] }
serde_json = "1"
tauri = { version = "2", default-features = false }
