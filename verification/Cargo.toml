[package]
name = "package_resolver"
version = "0.1.0"
edition = "2021"
publish = false

[dependencies]
anyhow = "1"
petgraph = "0.6"
semver = "1"
tracing = "0.1"
