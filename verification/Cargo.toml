[package]
name = "node_detect"
version = "0.1.0"
edition = "2021"
publish = false

[dependencies]
base64 = "0.22"
image = { version = "0.25", default-features = false, features = ["png"] }
once_cell = "1"
ort = { version = "=2.0.0-rc.10", default-features = false, features = ["load-dynamic"] }
serde = { version = "1", features = ["derive"] }
serde_json = "1"
