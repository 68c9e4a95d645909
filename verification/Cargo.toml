[package]
name = "colourful"
version = "0.1.0"
edition = "2021"
publish = false

[dependencies]
leptos = { version = "0.6", features = ["csr"] }
wasm-bindgen = "0.2"
gloo-net = "*"
serde = { version = "1", features = ["derive"] }
console_error_panic_hook = "0.1"
