[package]
name = "qlsa_stark_stwo"
version = "0.1.0"
edition = "2021"
publish = false

[dependencies]
bincode = { version = "=2.0.1", features = ["serde"] }
blake2 = "=0.10.6"
hex = "=0.4.3"
pyo3 = { version = "0.22", features = ["extension-module", "abi3-py38"] }
serde = { version = "1", features = ["derive"] }
serde_json = "1"
sha3 = "=0.10.9"
stwo = "=2.2.0"
stwo-constraint-framework = "=2.2.0"
zeroize = "1"
