[package]
name = "packetcrypt_blkmine"
version = "0.1.0"
edition = "2021"
publish = false

[dependencies]
rayon = "=1.12.0"
packetcrypt-sys = "=0.3.0"
