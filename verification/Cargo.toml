[package]
name = "tens"
version = "0.1.0"
edition = "2021"
publish = false

[dependencies]
sha2 = "*"
unicode-normalization = "*"
serde_json = "*"
serde = { version = "*", features = ["derive"] }
