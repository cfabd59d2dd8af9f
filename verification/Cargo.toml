[package]
name = "pagestore"
version = "0.1.0"
edition = "2021"
publish = false

[dependencies]
bincode = "1.3"
