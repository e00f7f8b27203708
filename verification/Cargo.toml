[package]
name = "twellik"
version = "0.1.0"
edition = "2021"
publish = false

[dependencies]
console_error_panic_hook = "0.1"
hnsw = "0.11"
indexed_db_futures = "0.4"
rand_pcg = "0.3"
rkyv = { version = "0.7", features = ["validation"] }
serde = { version = "1", features = ["derive"] }
serde-wasm-bindgen = "0.6"
space = "0.17"
thiserror = "1"
wasm-bindgen = "0.2"
wasm-bindgen-futures = "0.4"
web-sys = { version = "0.3", features = ["DomException"] }
