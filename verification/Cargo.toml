[package]
name = "object_space"
version = "0.1.0"
edition = "2021"
publish = false

[dependencies]
chashmap = "*"
indexmap = "*"
ordered-float = "*"
serde = { version = "1", features = ["derive"] }
serde_json = "1"
