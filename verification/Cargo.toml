[package]
name = "http1"
version = "0.1.0"
edition = "2021"
publish = false

[dependencies]
