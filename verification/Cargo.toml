[package]
name = "kobo_jdict"
version = "0.1.0"
edition = "2021"
publish = false

[dependencies]
flate2 = "1"
unicode_categories = "0.1"
zip = { version = "4.5", default-features = false, features = ["deflate"] }
quick-xml = "0.28"
serde_json = "1"
regex = "1"
tempfile = "3"
clap = "3"
