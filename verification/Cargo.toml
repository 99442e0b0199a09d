[package]
name = "mirror_cache"
version = "0.1.0"
edition = "2021"
publish = false

[dependencies]
bytefmt = "*"
bytes = "*"
redis = "*"
sled = "*"
