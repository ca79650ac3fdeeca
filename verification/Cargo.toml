[package]
name = "calendar_puzzle"
version = "0.1.0"
edition = "2021"
publish = false

[dependencies]
console_error_panic_hook = "0.1"
log = "0.4"
rayon = "1"
wasm-logger = "0.2"
web-sys = { version = "0.3", features = ["HtmlInputElement", "KeyboardEvent", "Window"] }
yew = { version = "0.21", features = ["csr"] }
