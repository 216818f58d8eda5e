[package]
name = "diskann"
version = "0.1.0"
edition = "2021"
publish = false

[dependencies]
h3o = "=0.11.0"
mimalloc = "*"
turso_ext = "=0.8.2"
