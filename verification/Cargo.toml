[package]
name = "dragon_skeleton"
version = "0.1.0"
edition = "2021"
publish = false

[dependencies]
serde_json = "1"
uuid = { version = "1", features = ["v4"] }
piston2d-sprite = "*"
piston-ai_behavior = "*"
