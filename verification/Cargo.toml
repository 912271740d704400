[package]
name = "hashring"
version = "0.1.0"
edition = "2021"
publish = false

[dependencies]
murmur3 = "=0.5.2"
siphasher = "=0.1.3"
rand = "=0.10.3"
