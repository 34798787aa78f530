[package]
name = "hamt"
version = "0.1.0"
edition = "2021"
publish = false

[dependencies]
anyhow = "1.0"
async-recursion = "1.0"
async-trait = "0.1"
bitvec = "=1.0.1"
log = "0.4"
serde = { version = "1.0", features = ["derive"] }
sha3 = "=0.10.9"
wasm-bindgen = "0.2"
