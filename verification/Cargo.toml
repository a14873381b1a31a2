[package]
name = "langextract"
version = "0.1.0"
edition = "2021"
publish = false

[dependencies]
serde = { version = "1", features = ["derive"] }
serde_json = "1"
serde_yaml = "0.9"
uuid = { version = "1", features = ["v4"] }
thiserror = "1"
async-trait = "0.1"
futures = "0.3"
reqwest = { version = "0.12", default-features = false, features = ["blocking", "json"] }
tempfile = "3"
flate2 = "1"
indicatif = "0.17"
url = "2"
html-escape = "0.2"
