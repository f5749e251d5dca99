[package]
name = "jury_pool"
version = "0.1.0"
edition = "2021"
publish = false

[dependencies]
candid = "0.8"
hex = "0.4"
ic-cdk = "0.6"
ic-cdk-macros = "0.6"
ic-certified-map = "0.3"
ic-stable-structures = "0.3"
num-derive = "0.3"
num-traits = "0.2"
rand = "0.8"
rand_chacha = "0.3"
rand_core = "0.6"
serde = "1"
serde_cbor = "0.11"
sha2 = "0.10"
