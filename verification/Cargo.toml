[package]
name = "tsp_genetic"
version = "0.1.0"
edition = "2021"
publish = false

[dependencies]
genevo = "*"
rand = "0.8"
wasm-bindgen = "0.2"
web-sys = { version = "0.3", features = ["CanvasRenderingContext2d", "Document", "Element", "HtmlCanvasElement", "Window"] }
console_error_panic_hook = "0.1"
