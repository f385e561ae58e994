[package]
name = "wsh"
version = "0.1.0"
edition = "2021"
publish = false

[dependencies]
anyhow = "1"
reqwest = { version = "0.12", default-features = false, features = ["blocking"] }
serde = "1"
serde_derive = "1"
toml = "0.8"
urlencoding = "2"
