[package]
name = "agentwire"
version = "0.1.0"
edition = "2021"
publish = false

[dependencies]
anyhow = "=1.0.104"
colored = "=2.2.0"
indexmap = "=2.14.2"
lazy_static = "=1.5.1"
regex = "=1.13.1"
