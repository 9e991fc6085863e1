[package]
name = "json_walker"
version = "0.1.0"
edition = "2021"
publish = false

[dependencies]
serde_json = "=1.0.154"

[dev-dependencies]
regex = "1"
