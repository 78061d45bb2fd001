[package]
name = "book-summary"
version = "0.1.0"
edition = "2021"
publish = false

[dependencies]
alphanumeric-sort = "1"
chinese-number = "0.7"
titlecase = "3"
clap = { version = "4", features = ["derive"] }
serde_json = "1"
toml = "0.8"
walkdir = "2"
