[package]
name = "try_hashmap"
version = "0.1.0"
edition = "2021"
publish = false

[dependencies]
hashbrown = { version = "*", default-features = false }
