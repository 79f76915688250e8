[package]
name = "wasm_registry"
version = "0.1.0"
edition = "2021"
publish = false

[dependencies]
ic-stable-structures = "*"
sha2 = "*"
