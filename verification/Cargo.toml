[package]
name = "substrate_dex"
version = "0.1.0"
edition = "2021"
publish = false

[dependencies]
primitive-types = { version = "*", default-features = false }
blake2b_simd = "1"
byteorder = "1"
