[package]
name = "consolidator"
version = "0.1.0"
edition = "2021"
publish = false

[dependencies]
anyhow = "=1.0.104"
cfg-expr = "=0.20.10"
semver = "=1.0.28"
