[package]
name = "t_rust_less"
version = "0.1.0"
edition = "2021"
publish = false

[dependencies]
chacha20-poly1305-aead = "0.1"
x25519-dalek = "1.1"
rand = "0.7"
openssl = "0.10"
zeroize = "1"
chrono = "0.4"
