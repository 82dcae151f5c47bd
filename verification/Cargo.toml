[package]
name = "csv_validator"
version = "0.1.0"
edition = "2021"
publish = false

[dependencies]
csv = "1"
regex = "1"
rhai = "1"
serde = { version = "1", features = ["derive"] }
thiserror = "2"
toml = "0.8"
