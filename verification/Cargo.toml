[package]
name = "phase1-coordinator"
version = "0.1.0"
edition = "2021"
publish = false

[dependencies]
rand = "0.8"

[dev-dependencies]
rayon = "1"
