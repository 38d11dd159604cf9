[package]
name = "threshold_core"
version = "0.1.0"
edition = "2021"
publish = false

[dependencies]
crypto-bigint = "0.5"
subtle = "2.4"
zeroize = { version = "1.5", features = ["derive"] }
blake2 = "0.10"
rand_core = "0.6"
rand_chacha = "0.3"
ff = "0.13"
group = "0.13"
generic-array = "0.14"
lazy_static = "1.4"
hex = "0.4"
log = "0.4"
bincode = "1.3"
