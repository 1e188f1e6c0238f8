[package]
name = "expert_spoon"
version = "0.1.0"
edition = "2021"
publish = false

[dependencies]
global-hotkey = "*"
home = "*"
image = { version = "*", default-features = false, features = ["png"] }

[dev-dependencies]
serde_yaml = "*"
