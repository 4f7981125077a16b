[package]
name = "wfc_engine"
version = "0.1.0"
edition = "2021"
publish = false

[dependencies]
getrandom = { version = "=0.2.17", features = ["js"] }
rand = { version = "=0.8.8", features = ["small_rng"] }
serde = { version = "=1.0.229", features = ["derive"] }
serde-wasm-bindgen = "=0.6.5"
wasm-bindgen = "=0.2.129"
