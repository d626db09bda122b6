[package]
name = "price_oracle"
version = "0.1.0"
edition = "2021"
publish = false

[dependencies]
near-sdk = { version = "=5.29.1", features = ["non-contract-usage"] }
borsh = { version = "=1.8.1", features = ["unstable__schema"] }
schemars = "=1.2.2"
serde = { version = "=1.0.229", features = ["derive"] }
