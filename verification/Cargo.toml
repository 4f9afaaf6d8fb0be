[package]
name = "httpclient"
version = "0.1.0"
edition = "2021"
publish = false

[dependencies]
cookie = { version = "0.18", features = ["percent-encode"] }
rand = "0.8"
serde = "1"
serde_json = "1"
urlencoding = "2"
walkdir = "2"
