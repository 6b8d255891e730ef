[package]
name = "mypy_diff"
version = "0.1.0"
edition = "2021"
publish = false

[dependencies]
tempfile = "3"
term = "0.7"
