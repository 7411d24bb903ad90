[package]
name = "utxo_chain"
version = "0.1.0"
edition = "2021"
publish = false

[dependencies]
rust-crypto = "0.2.36"
bitcoincash-addr = "0.5.2"
rand = "0.8.5"
sled = "0.34.7"
clap = "4"

[dev-dependencies]
bincode = "1.3.3"
merkle-cbt = "0.3"
