[package]
name = "ruuter_on_rust"
version = "0.1.0"
edition = "2021"
publish = false

[dependencies]
url = "2"
sha2 = "0.10"
regex = "1"
rand = "0.8"
dashmap = "*"
serde = { version = "1", features = ["derive"] }
serde_json = "1"
serde_yaml_ng = "*"
tracing = "0.1"
