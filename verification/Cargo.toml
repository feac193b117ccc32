[package]
name = "hierseg"
version = "0.1.0"
edition = "2021"
publish = false

[dependencies]
console_error_panic_hook = "0.1"
image = { version = "0.24", default-features = false, features = ["png"] }
ndarray = "0.15"
num-traits = "0.2"
petgraph = "0.6"
simple_clustering = "*"
wasm-bindgen = "0.2"
