[package]
name = "hashgraph"
version = "0.1.0"
edition = "2021"
publish = false

[dependencies]
async-std = "=1.13.2"
bincode = "=1.3.3"
data-encoding = "=2.11.1"
dirs = "=7.0.0"
disco = "=0.1.0"
ed25519-dalek = "=1.0.0-pre.3"
rand = "=0.7.3"
serde = { version = "=1.0.229", features = ["derive"] }
sled = "=0.34.7"
thiserror = "=1.0.69"

[dev-dependencies]
tempdir = "=0.3.7"
