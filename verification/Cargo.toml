[package]
name = "blockstore"
version = "0.1.0"
edition = "2021"
publish = false

[dependencies]
lru = "=0.7.8"
random-access-storage = "=3.0.0"
bincode = "=1.3.3"
serde = "=1.0.229"
failure = "=0.1.8"
