[package]
name = "loot"
version = "0.1.0"
edition = "2021"
publish = false

[dependencies]
aes-gcm = "0.10"
blake3 = "1"
ed25519-dalek = { version = "2", features = ["rand_core"] }
getrandom = "0.2"
rand = "0.8"
ssh-key = { version = "0.6", features = ["ed25519"] }
thiserror = "1"
