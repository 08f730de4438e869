[package]
name = "kvs"
version = "0.1.0"
edition = "2021"
publish = false

[dependencies]
fs-err = "=3.3.2"

[dev-dependencies]
tempfile = "=3.27.0"
crossbeam-utils = "*"
