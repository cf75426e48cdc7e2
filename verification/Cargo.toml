[package]
name = "moeve"
version = "0.1.0"
edition = "2021"
publish = false

[dependencies]
anyhow = "*"
chrono = "*"
chrono-humanize = "*"
clap = { version = "*", features = ["derive"] }
comfy-table = "*"
rand = "*"
rusqlite = { version = "*", features = ["bundled"] }
