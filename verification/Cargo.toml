[package]
name = "tetrizz"
version = "0.1.0"
edition = "2021"
publish = false

[dependencies]
arrayvec = "0.7"
rand = "0.9"
serde = { version = "1", features = ["derive"] }
serde_json = "1"
