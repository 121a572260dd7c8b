[package]
name = "grammex"
version = "0.1.0"
edition = "2021"
publish = false

[dependencies]
rand_core = "0.6"
rand = { version = "0.8", features = ["small_rng"] }
wasm-bindgen = "0.2"
