[package]
name = "zkmemory"
version = "0.1.0"
edition = "2021"
publish = false

[dependencies]
ff = "=0.14.0"
halo2_proofs = "=0.4.1"
halo2_poseidon = "=0.2.0"
halo2_gadgets = "=0.6.0"
pasta_curves = "=0.6.1"
rand = "=0.10.3"
rand_core = "=0.10.1"
crypto-bigint = "=0.6.1"
