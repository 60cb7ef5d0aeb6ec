[package]
name = "merkletree"
version = "0.1.0"
edition = "2021"
publish = false

[dependencies]
ark-bls12-381 = "=0.6.0"
ark-ff = "=0.6.0"
ark-serialize = "=0.6.0"
ark-std = "=0.6.0"
ff = "0.13"
halo2_proofs = "0.3"
halo2curves = "*"
sha2 = "=0.11.1"
