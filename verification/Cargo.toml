[package]
name = "bear-to-markdown"
version = "0.1.0"
edition = "2021"
publish = false

[dependencies]
anyhow = "1"
chrono = "0.4"
clap = { version = "4", features = ["derive"] }
dirs = "*"
percent-encoding = "2"
regex = "1"
rusqlite = { version = "*", features = ["bundled"] }
tempfile = "3"
