[package]
name = "sentinel"
version = "0.1.0"
edition = "2021"
publish = false

[dependencies]
aho-corasick = "=1.1.5"
memchr = "=2.8.3"
toml = "=0.8.23"
portable-pty = "=0.8.1"
