[package]
name = "nadi_scan"
version = "0.1.0"
edition = "2021"
publish = false

[dependencies]
nadi_core = { version = "=0.7.2", features = ["parser", "functions"] }
nom = "=7.1.3"
