[package]
name = "rust_ps"
version = "0.1.0"
edition = "2021"
publish = false

[dependencies]
scraper = "*"
rand = "0.8"
ureq = "2"
reqwest = { version = "0.12", default-features = false, features = ["blocking", "rustls-tls"] }
