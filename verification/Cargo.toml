[package]
name = "facet"
version = "0.1.0"
edition = "2021"
publish = false

[dependencies]
anyhow = "1"
futures = "0.3"
async-trait = "0.1"
thiserror = "1"
