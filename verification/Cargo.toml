[package]
name = "vyges-est"
version = "0.1.0"
edition = "2021"
publish = false

[dependencies]
flate2 = "1.1"
serde_json = "1"
