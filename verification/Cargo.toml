[package]
name = "form_widgets"
version = "0.1.0"
edition = "2021"
publish = false

[dependencies]
chrono = "0.4"
yew = { version = "0.21", features = ["csr"] }
yew-hooks = "0.3"
wasm-bindgen = "0.2"
js-sys = "0.3"
web-sys = { version = "0.3", features = ["Event", "EventTarget", "HtmlElement", "HtmlInputElement", "HtmlTextAreaElement", "InputEvent", "KeyboardEvent", "MouseEvent", "Node", "Range", "Selection", "Window"] }
