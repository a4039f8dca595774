[package]
name = "control_model"
version = "0.1.0"
edition = "2021"
publish = false

[dependencies]
roxmltree = "*"
serde = { version = "1", features = ["derive"] }
serde_json = "1"
