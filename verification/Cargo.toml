[package]
name = "btleech"
version = "0.1.0"
edition = "2021"
publish = false

[dependencies]
hex = "0.4"
log = "0.4"
rand = "0.9"
reqwest = { version = "0.12", default-features = false }
sha1 = "0.10"
tokio = { version = "1", features = ["full"] }
