[package]
name = "charstreamer"
version = "0.1.0"
edition = "2021"
publish = false

[dependencies]
memchr = "2"
icu = "1.5"
serde = { version = "1", features = ["derive"] }
serde_json = "1"
rand = "0.9"
