[package]
name = "blitzscript_core"
version = "0.1.0"
edition = "2021"
publish = false

[dependencies]
serde = { version = "=1.0.229", features = ["derive"] }
serde_json = "=1.0.154"
walkdir = "=2.5.0"
rusqlite = "=0.41.1"
portable-pty = "=0.9.0"
tauri = { version = "=2.12.5", default-features = false }

[dev-dependencies]
regex = "1"
