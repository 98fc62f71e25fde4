[package]
name = "tosic_http"
version = "0.1.0"
edition = "2021"
publish = false

[dependencies]
flate2 = "1"
serde = "1"
serde_json = "1"
serde_urlencoded = "0.7"
