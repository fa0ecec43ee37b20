[package]
name = "grin_block"
version = "0.1.0"
edition = "2021"

[dependencies]
blake2-rfc = "0.2"
grin_secp256k1zkp = "0.7"
rand = "0.4"
siphasher = "0.2"
time = "0.1"
