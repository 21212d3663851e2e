[package]
name = "pipecryptbackup"
version = "0.1.0"
edition = "2021"
publish = false

[dependencies]
aead = "0.5"
aes-gcm = "0.10"
colored = "2"
generic-array = "0.14"
gtk4 = "0.7"
rand = "0.8"
rust-ini = "0.21"
typenum = "1"
whoami = "1"
