[package]
name = "simsearch"
version = "0.4.0"
edition = "2021"
publish = false

[dependencies]
strsim = "0.11"
serde = { version = "1", features = ["derive"] }
