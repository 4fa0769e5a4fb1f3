[package]
name = "malevich"
version = "0.2.0"
edition = "2021"
publish = false

[dependencies]
unicode-width = "0.2"
serde = { version = "1", features = ["derive"] }

[dev-dependencies]
serde_json = "1"
