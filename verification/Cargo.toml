[package]
name = "regex_crossword"
version = "0.1.0"
edition = "2021"
publish = false

[dependencies]
fancy-regex = "*"
regex-syntax = "*"
serde = { version = "*", features = ["derive"] }
serde_json = "*"
anyhow = "*"
