[package]
name = "spac_update"
version = "0.1.0"
edition = "2021"
publish = false

[dependencies]
rayon = "=1.12.0"

[dev-dependencies]
regex = "1"
