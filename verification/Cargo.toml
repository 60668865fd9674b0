[package]
name = "lab"
version = "0.1.0"
edition = "2021"
publish = false

[dependencies]
anyhow = "1"
clap = { version = "4", features = ["derive"] }
jiff = "0.2"
regex = "1"
serde = { version = "1", features = ["derive"] }
serde_yaml_ng = "0.10"
toml = "0.8"
