[package]
name = "cancer"
version = "0.1.0"
edition = "2021"
publish = false

[dependencies]
fnv = "1"
itertools = "*"
unicode-width = "*"
picto = { version = "*", default-features = false }
tendril = "*"
