[package]
name = "tx_review"
version = "0.1.0"
edition = "2021"
publish = false

[dependencies]
ledger_device_sdk = "*"

[dev-dependencies]
rand = "0.8"
