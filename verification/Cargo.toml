[package]
name = "tfidf_search"
version = "0.1.0"
edition = "2021"
publish = false

[dependencies]
xml-rs = "*"
rust-stemmers = "*"
glob = "*"
tiny_http = "*"
serde = { version = "*", features = ["derive"] }
serde_json = "*"
