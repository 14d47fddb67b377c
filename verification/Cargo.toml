[package]
name = "awpy"
version = "0.1.0"
edition = "2021"
publish = false

[dependencies]
anyhow = "1"
colored = "*"
prost = "0.13"
serde = { version = "1", features = ["derive"] }
serde_json = "1"
