[package]
name = "arbitrager"
version = "0.1.0"
edition = "2021"
publish = false

[dependencies]
solana-sdk = "=2.3.1"
orca_whirlpools_core = "=1.0.8"
serde = { version = "1", features = ["derive"] }
serde_json = "1"
bincode = "1"
