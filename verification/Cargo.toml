[package]
name = "drumentor"
version = "0.1.0"
edition = "2021"
publish = false

[dependencies]
midly = "0.5"
uuid = { version = "1", features = ["v4"] }
serde = { version = "1", features = ["derive"] }
serde_json = "1"
thiserror = "1"
rusqlite = { version = "0.31", features = ["bundled"] }
midir = "0.10"
cpal = "0.15"
oxisynth = "*"
