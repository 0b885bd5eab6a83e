[package]
name = "cpctplus"
version = "0.1.0"
edition = "2021"
publish = false

[dependencies]
cactus = "*"
vob = "*"
serde = { version = "1", features = ["derive"] }
