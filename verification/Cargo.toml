[package]
name = "lotstash"
version = "0.1.0"
edition = "2021"
publish = false

[dependencies]
anyhow = "*"
chrono = "*"
clap = { version = "*", features = ["derive"] }
dirs = "*"
easy-scraper = "*"
reqwest = { version = "*", default-features = false, features = ["blocking"] }
