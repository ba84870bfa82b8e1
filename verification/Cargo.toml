[package]
name = "neutralize"
version = "0.1.0"
edition = "2021"
publish = false

[dependencies]
indexmap = { version = "2", features = ["serde"] }
itertools = "*"
serde = { version = "1", features = ["derive"] }
serde_yaml = "0.9"
thiserror = "1"
