[package]
name = "celestia_commitment"
version = "0.1.0"
edition = "2021"
publish = false

[dependencies]
plonky2 = "=1.1.0"
plonky2_field = "=1.0.0"
