[package]
name = "musicbox"
version = "0.1.0"
edition = "2021"
publish = false

[dependencies]
urlencoding = "2"
tiny_http = "0.12"
chrono = "0.4"
