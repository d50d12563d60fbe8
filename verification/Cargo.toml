[package]
name = "stp_postmortem"
version = "0.1.0"
edition = "2021"
publish = false

[dependencies]
nom = "7.1"
serde = { version = "1", features = ["derive"] }
serde-wasm-bindgen = "0.6"
wasm-bindgen = "0.2"
