[package]
name = "automeme"
version = "0.1.0"
edition = "2021"
publish = false

[dependencies]
image = "*"
fontdue = "*"
glob = "*"
serde = { version = "*", features = ["derive"] }
serde_json = "*"
