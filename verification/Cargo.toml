[package]
name = "herdr"
version = "0.4.1"
edition = "2021"
publish = false

[dependencies]
serde = { version = "1", features = ["derive"] }
serde_json = "1"
schemars = "*"
time = { version = "0.3", features = ["formatting"] }
