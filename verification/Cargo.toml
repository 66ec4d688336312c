[package]
name = "shamir_share"
version = "0.1.0"
edition = "2021"

[dependencies]
rand = "0.9"
rand_chacha = "0.9"
rand_core = "0.9"
rayon = "1"
sha2 = "0.10"
thiserror = "1"
zeroize = "1"
zstd = "0.13"
