[package]
name = "card_encryption"
version = "0.1.0"
edition = "2021"
publish = false

[dependencies]
halo2_gadgets = "=0.6.0"
halo2_proofs = "*"
pasta_curves = "*"
itertools = "*"
rand = "*"
serde = { version = "*", features = ["derive"] }
serde_json = "*"
