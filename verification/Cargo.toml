[package]
name = "bottom"
version = "0.1.0"
edition = "2021"
publish = false

[dependencies]
wasm-bindgen = "0.2"
web-sys = { version = "0.3", features = ["Window", "Document", "Element", "Node", "HtmlElement", "HtmlInputElement", "HtmlButtonElement", "EventTarget", "Event"] }
gloo-events = "0.2"
console_error_panic_hook = "0.1"
