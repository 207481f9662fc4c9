[package]
name = "tablestore"
version = "0.1.0"
edition = "2021"
publish = false

[dependencies]
async-trait = "*"
idb = "*"
serde = { version = "*", features = ["derive"] }
serde-wasm-bindgen = "*"
wasm-bindgen = "*"
