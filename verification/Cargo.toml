[package]
name = "task_manager"
version = "0.1.0"
edition = "2021"
publish = false

[dependencies]
serde = { version = "1", features = ["derive"] }
serde_json = "1"
dirs = "6"
tokio = { version = "1", features = ["time"] }
tauri = { version = "2", default-features = false, features = ["wry"] }
