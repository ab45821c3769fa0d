[package]
name = "wildbow_scraper"
version = "0.1.0"
edition = "2021"
publish = false

[dependencies]
hex = "*"
url = "*"
scraper = "*"
ego-tree = "*"
reqwest = { version = "*", default-features = false, features = ["blocking"] }
epub-builder = "*"
directories = "*"
structopt = "*"
