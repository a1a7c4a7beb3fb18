[package]
name = "atomic_bucket"
version = "0.1.0"
edition = "2021"
publish = false

[dependencies]
crossbeam-utils = "0.8"
