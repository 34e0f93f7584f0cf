[package]
name = "shezem_rs"
version = "0.1.0"
edition = "2021"
publish = false

[dependencies]
anyhow = "*"
clap = { version = "*", features = ["derive"] }
microfft = "*"
minimp3 = "*"
rusqlite = { version = "*", features = ["bundled"] }
