[package]
name = "taimux"
version = "0.1.0"
edition = "2021"
publish = false

[dependencies]
crossterm = { version = "0.28", features = ["use-dev-tty"] }
fuzzy-matcher = "0.3"
ratatui = "0.29"
rusqlite = { version = "*", features = ["bundled"] }
unicode-width = "0.2"
