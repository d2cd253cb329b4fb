[package]
name = "firerust"
version = "1.0.0"
edition = "2021"
publish = false

[dependencies]
serde = "*"
serde_json = "*"
url = "*"
