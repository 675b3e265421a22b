[package]
name = "liwe"
version = "0.1.0"
edition = "2021"
publish = false

[dependencies]
pulldown-cmark = { version = "0.13", default-features = false }
regex = "1"
itertools = "0.14"
