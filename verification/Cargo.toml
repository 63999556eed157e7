[package]
name = "anvil_calc"
version = "0.1.0"
edition = "2021"
publish = false

[dependencies]
serde = { version = "1", features = ["derive"] }
serde_yaml = "0.9"
wasm-bindgen = "0.2"
instant = "0.1"
console_error_panic_hook = "0.1"
