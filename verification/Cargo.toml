[package]
name = "voudp"
version = "0.1.0"
edition = "2021"
publish = false

[dependencies]
chacha20poly1305 = "0.10"
pbkdf2 = "0.12"
sha2 = "0.10"
opus = "0.3"
