[package]
name = "wasm_gc"
version = "0.1.0"
edition = "2021"
publish = false

[dependencies]
rustc-demangle = "0.1"
parity-wasm = "0.31"
