[package]
name = "epubgraph"
version = "0.1.0"
edition = "2021"
publish = false

[dependencies]
petgraph = "=0.8.3"
rusqlite = { version = "=0.40.2", features = ["bundled"] }
serde = { version = "*", features = ["derive"] }
serde_json = "*"
walkdir = "*"
notify = "*"
epub = "*"
reqwest = { version = "*", default-features = false, features = ["blocking", "json"] }
chrono = "*"

[dev-dependencies]
tempfile = "*"
