[package]
name = "field_sha256"
version = "0.1.0"
edition = "2021"
publish = false

[dependencies]
ark-ff = "=0.4.2"
ark-pallas = "=0.4.0"
hex = "=0.4.3"

[dev-dependencies]
sha2 = "=0.10.9"
rand = "0.8"
