[package]
name = "clipstack"
version = "0.1.0"
edition = "2021"
publish = false

[dependencies]
base64 = "0.22"
serde = { version = "1", features = ["derive"] }
serde_json = "1"
rusqlite = { version = "*", features = ["bundled"] }
clipboard-rs = "*"
image = { version = "*", default-features = false, features = ["png"] }
objc2 = "0.6"
objc2-app-kit = "0.3"
objc2-foundation = "0.3"
