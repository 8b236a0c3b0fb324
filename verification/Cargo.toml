[package]
name = "range_cache_engine"
version = "0.1.0"
edition = "2021"
publish = false

[dependencies]
hex = "0.4"
