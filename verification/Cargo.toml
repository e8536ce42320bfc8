[package]
name = "wikipedia-search-engine"
version = "0.1.0"
edition = "2021"
publish = false

[dependencies]
log = "*"
log4rs = "*"
memmap2 = "*"
regex = "*"
reqwest = { version = "*", features = ["blocking"] }
scraper = "*"
