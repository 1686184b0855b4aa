[package]
name = "encipher"
version = "0.1.0"
edition = "2021"
publish = false

[dependencies]
ibig = "=0.3.6"
rand = "=0.8.8"
serde = { version = "=1.0.229", features = ["derive"] }
serde_json = "1"
