[package]
name = "ice_frost"
version = "0.1.0"
edition = "2021"
publish = false

[dependencies]
aes = { version = "0.7", features = ["ctr"] }
curve25519-dalek = "3.2"
hkdf = "0.11"
rand = "0.7"
sha2 = "0.9"
subtle = "2.4"
zeroize = "1"
