[package]
name = "monero-scan"
version = "0.1.0"
edition = "2021"
publish = false

[dependencies]
ahash = "=0.8.12"
curve25519-dalek = { version = "=4.1.3", features = ["zeroize"] }
once_cell = "=1.21.4"
sha3 = "=0.10.9"
thiserror = "=2.0.21"
zeroize = { version = "=1.9.1", features = ["derive"] }
