[package]
name = "rwa_lending"
version = "0.1.0"
edition = "2021"
publish = false

[dependencies]
chrono = "=0.4.45"
soroban-sdk = { version = "=29.0.1", features = ["hazmat-address"] }
