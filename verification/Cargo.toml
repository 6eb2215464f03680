[package]
name = "zehnyasearch"
version = "0.1.0"
edition = "2021"
publish = false

[dependencies]
url = "2"
scraper = "*"
ureq = "2"
tiny_http = "0.12"
bincode = "1.3"
serde = { version = "1", features = ["derive"] }
