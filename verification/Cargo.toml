[package]
name = "personal_ranker"
version = "1.0.0"
edition = "2021"
publish = false

[dependencies]
serde = { version = "1", features = ["derive"] }
serde_json = "1"
csv = "1"
uuid = { version = "1", features = ["v4"] }
chrono = "0.4"
base64 = "0.22"
thiserror = "2"
rusqlite = { version = "0.32", features = ["bundled"] }
