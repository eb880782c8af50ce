[package]
name = "audio_catalog"
version = "0.1.0"
edition = "2021"
publish = false

[dependencies]
rusqlite = { version = "*", features = ["bundled"] }
uuid = { version = "=1.27.0", features = ["v4"] }
