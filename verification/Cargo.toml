[package]
name = "ltip_ledger"
version = "0.1.0"
edition = "2021"
publish = false

[dependencies]
near-sdk = { version = "=5.29.1", features = ["non-contract-usage"] }
near-sdk-contract-tools = "=3.0.2"
near-contract-standards = "=5.29.1"
near-gas = "=0.3.7"
