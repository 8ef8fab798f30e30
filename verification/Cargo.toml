[package]
name = "downloads_history"
version = "0.1.0"
edition = "2021"
publish = false

[dependencies]
anyhow = "1"
chrono = "0.4"
clap = { version = "4", features = ["derive"] }
hex = "0.4"
rusqlite = { version = "*", features = ["bundled"] }
sha2 = "0.10"
walkdir = "2"
