[package]
name = "modelsteward"
version = "0.5.2"
edition = "2021"
publish = false

[dependencies]
serde = { version = "1", features = ["derive"] }
serde_json = "1"
serde_yaml = "0.9"
jsonc-parser = { version = "0.26", features = ["serde"] }
anyhow = "1"
ureq = { version = "2", features = ["json"] }

[dev-dependencies]
tempfile = "3"
