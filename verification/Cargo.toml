[package]
name = "aips_records"
version = "0.1.0"
edition = "2021"
publish = false

[dependencies]
chrono = "0.4"
csv = "1"
quick-xml = "0.37"
reqwest = { version = "0.12", default-features = false, features = ["blocking", "cookies", "rustls-tls"] }
scraper = "*"
urlencoding = "2"
zip = { version = "2", default-features = false, features = ["deflate"] }
