[package]
name = "neomark"
version = "0.1.0"
edition = "2021"
publish = false

[dependencies]
indextree = "*"
regex = "*"
