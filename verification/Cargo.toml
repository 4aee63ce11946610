[package]
name = "arrow_concat"
version = "0.1.0"
edition = "2021"
publish = false

[dependencies]
arrow-array = "=56.0.0"
arrow-buffer = "=56.0.0"
arrow-data = "=56.0.0"
arrow-schema = "=56.0.0"
