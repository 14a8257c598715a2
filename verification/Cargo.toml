[package]
name = "fsscanner"
version = "0.1.0"
edition = "2021"
publish = false

[dependencies]
crossbeam-channel = "0.5"
serde = { version = "1", features = ["derive"] }
