[package]
name = "yaml0"
version = "0.4.0"
edition = "2021"
publish = false

[dependencies]
serde = "1"
