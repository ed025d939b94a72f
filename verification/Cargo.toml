[package]
name = "stagefold"
version = "0.1.0"
edition = "2021"
publish = false

[dependencies]
rangemap = "=1.8.0"
