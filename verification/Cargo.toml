[package]
name = "object_rainbow"
version = "0.1.0"
edition = "2021"
publish = false

[dependencies]
sha2 = "=0.10.9"
hex = "=0.4.3"
serde = { version = "1", features = ["derive"] }
