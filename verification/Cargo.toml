[package]
name = "glacier2obj"
version = "0.1.0"
edition = "2021"
publish = false

[dependencies]
rpkg-rs = "*"
serde = { version = "1", features = ["derive"] }
serde_json = "1"
tungstenite = "0.20"
url = "2"
itertools = "*"
