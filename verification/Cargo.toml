[package]
name = "bc4py_plotter"
version = "0.1.0"
edition = "2021"
publish = false

[dependencies]
sha2 = "=0.10.9"
blake2b_simd = "=1.0.5"
bech32 = "=0.5.0"
serde_json = "=1.0.154"
colored = "=2.2.0"
workerpool = "=1.2.1"
reqwest = "=0.9.24"

[dev-dependencies]
regex = "=1.13.1"
