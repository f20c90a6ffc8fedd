[package]
name = "mobile_zipper"
version = "0.1.0"
edition = "2021"
publish = false

[dependencies]
zip = { version = "2", default-features = false, features = ["deflate"] }
serde = { version = "1", features = ["derive"] }
serde_json = "1"
wasm-bindgen = "0.2"
wasm-bindgen-futures = "0.4"
js-sys = "0.3"
web-sys = { version = "0.3", features = ["Window", "Document", "Element", "HtmlElement", "HtmlInputElement", "HtmlButtonElement", "HtmlAnchorElement", "HtmlSelectElement", "HtmlTextAreaElement", "Blob", "Url", "File", "FileList", "Event", "InputEvent", "MouseEvent", "Storage", "CssStyleDeclaration", "Node", "EventTarget"] }
yew = { version = "0.21", features = ["csr"] }
gloo = "0.11"
gloo-net = "0.6"
gloo-timers = { version = "0.3", features = ["futures"] }
