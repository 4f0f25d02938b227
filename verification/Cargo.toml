[package]
name = "mock_store"
version = "0.1.0"
edition = "2021"
publish = false

[dependencies]
substreams = "0.5"
