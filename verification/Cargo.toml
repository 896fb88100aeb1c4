[package]
name = "delirium"
version = "0.1.0"
edition = "2021"
publish = false

[dependencies]
ron-uuid = "=0.4.0"
fugue = { version = "=0.2.10", default-features = false }
fugue-bv = { version = "=0.2.36", default-features = false, features = ["bigint-malachite"] }
