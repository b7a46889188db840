[package]
name = "annul"
version = "0.1.0"
edition = "2021"
publish = false

[dependencies]
zstd = "*"
http_req = "*"
tempfile = "*"
tempfile-fast = "*"
url = "*"
