[package]
name = "sauron"
version = "0.1.0"
edition = "2021"
publish = false

[dependencies]
mt-dom = "*"
futures = "0.3"
js-sys = "0.3"
wasm-bindgen = "0.2"
wasm-bindgen-futures = "0.4"
web-sys = { version = "0.3", features = ["Comment", "Document", "Element", "EventTarget", "HtmlInputElement", "HtmlTextAreaElement", "Node", "NodeList", "Text", "Window"] }
