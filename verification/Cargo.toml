[package]
name = "modeler_app"
version = "0.1.0"
edition = "2021"
publish = false

[dependencies]
base64 = "0.22"
image = { version = "0.25", default-features = false, features = ["png", "jpeg"] }
serde_json = "1"
serde = { version = "1", features = ["derive"] }
dirs = "5"
ureq = { version = "2", default-features = false, features = ["tls"] }
hayro = "*"
glam = "0.30"
three-d = { version = "*", default-features = false, features = ["egui-gui"] }
