[package]
name = "grough"
version = "0.1.0"
edition = "2021"
publish = false

[dependencies]
indexmap = "1"
rand = "0.7"
