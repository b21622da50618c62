[package]
name = "dcf"
version = "0.1.0"
edition = "2021"
publish = false

[dependencies]
rust_decimal = { version = "*", features = ["maths"] }
serde = { version = "*", features = ["derive"] }
serde_json = "*"
thiserror = "*"
wasm-bindgen = "*"
console_error_panic_hook = "*"
