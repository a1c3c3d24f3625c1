[package]
name = "search_index"
version = "0.1.0"
edition = "2021"
publish = false

[dependencies]
porter-stemmer = "*"
regex = "*"
scraper = "*"
serde = { version = "*", features = ["derive"] }
serde_json = "*"
url-parse = "*"
