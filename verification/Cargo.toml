[package]
name = "screenshot"
version = "0.1.0"
edition = "2021"
publish = false

[dependencies]
base64 = "=0.22.1"
image = "=0.25.10"
serde = { version = "=1.0.229", features = ["derive"] }
parking_lot = "=0.12.5"
arboard = "=3.7.0"
