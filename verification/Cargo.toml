[package]
name = "cirru_parser"
version = "0.2.0"
edition = "2021"
publish = false

[dependencies]
bincode = "2"
serde = "1"
serde_json = "1"
wasm-bindgen = "0.2"
