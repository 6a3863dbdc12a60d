[package]
name = "mix_test_filter"
version = "0.1.0"
edition = "2021"
publish = false

[dependencies]
anyhow = "1"

[dev-dependencies]
regex = "1"
