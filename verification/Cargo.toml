[package]
name = "kobold"
version = "0.1.0"
edition = "2021"
publish = false

[dependencies]
quote = "1"
wasm-bindgen = "0.2"
web-sys = { version = "0.3", features = ["Document", "DocumentFragment", "Element", "Node", "Text", "Window"] }
console_error_panic_hook = "0.1"
