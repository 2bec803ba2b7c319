[package]
name = "contact_scraper"
version = "0.1.0"
edition = "2021"
publish = false

[dependencies]
regex = "1"
url = "2"
reqwest = { version = "0.12", features = ["blocking"] }
