[package]
name = "qautomata"
version = "0.1.0"
edition = "2021"
publish = false

[dependencies]
num = "*"
evalexpr = "*"
sha2 = "*"
rand = "*"
serde = { version = "*", features = ["derive"] }
serde_json = "*"
serde_yaml = "*"
clap = { version = "*", features = ["derive"] }
