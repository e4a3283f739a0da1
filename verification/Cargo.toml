[package]
name = "polyrhythm"
version = "0.1.0"
edition = "2021"
publish = false

[dependencies]
num-rational = { version = "0.4", default-features = false }
num-traits = "0.2"
num-integer = "0.1"
wasm-bindgen = "0.2"
wasm-bindgen-futures = "0.4"
web-sys = { version = "0.3", features = ["CanvasRenderingContext2d", "Document", "Element", "HtmlCanvasElement", "HtmlDivElement", "HtmlElement", "HtmlParagraphElement", "HtmlTextAreaElement", "Node", "Response", "Window", "EventTarget"] }
smufl = "*"
console_error_panic_hook = "0.1"
lalrpop-util = "*"
