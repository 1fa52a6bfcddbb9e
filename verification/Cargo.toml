[package]
name = "initfs"
version = "0.1.0"
edition = "2021"
publish = false

[dependencies]
plain = "0.2"
