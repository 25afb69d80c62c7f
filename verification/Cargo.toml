[package]
name = "dictlib"
version = "0.1.0"
edition = "2021"
publish = false

[dependencies]
bit-set = "=0.11.1"
byteorder = "=1.5.0"
serde = { version = "=1.0.229", features = ["derive"] }
serde_json = "=1.0.154"
wasm-bindgen = "=0.2.129"
web-sys = { version = "=0.3.106", features = ["console", "Window", "Performance"] }
console_error_panic_hook = "=0.1.7"
