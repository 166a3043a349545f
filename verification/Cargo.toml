[package]
name = "ryazon"
version = "0.1.0"
edition = "2021"
publish = false

[dependencies]
rand = "*"
clap = "*"
serde = { version = "*", features = ["derive"] }
serde_json = "*"
