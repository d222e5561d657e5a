[package]
name = "merkle_pedersen"
version = "0.1.0"
edition = "2021"
publish = false

[dependencies]
ark-bn254 = "*"
ark-std = "*"
num = "*"
clap = { version = "*", features = ["derive"] }
inquire = "*"
serde = { version = "*", features = ["derive"] }
serde_json = "*"
