[package]
name = "hashsign"
version = "0.1.0"
edition = "2021"
publish = false

[dependencies]
bincode = "=0.6.1"
rust-crypto = "=0.2.36"
rand = "=0.3.23"
serde = "=0.8.23"
