[package]
name = "ttl_store"
version = "0.1.0"
edition = "2021"
publish = false

[dependencies]
neon = "=1.1.2"
turbosql = "=0.1.7"
