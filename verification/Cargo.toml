[package]
name = "reviewr"
version = "0.1.0"
edition = "2021"
publish = false

[dependencies]
anyhow = "1"
ignore = "0.4"
