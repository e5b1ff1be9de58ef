[package]
name = "slc"
version = "0.1.0"
edition = "2021"
publish = false

[dependencies]
minijinja = "2"
serde = { version = "1", features = ["derive"] }
serde_yaml = "0.9"
