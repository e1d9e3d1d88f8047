[package]
name = "fm-offline-pos"
version = "0.1.0"
edition = "2021"
publish = false

[dependencies]
base64 = "0.22"
bech32 = "0.11"
hex = "0.4"
qrcode = { version = "0.14", default-features = false, features = ["svg"] }
serde = { version = "1", features = ["derive"] }
serde_json = "1"
leptos = { version = "0.7", features = ["csr"] }
wasm-bindgen = "0.2"
wasm-bindgen-futures = "0.4"
js-sys = "0.3"
gloo-timers = { version = "0.3", features = ["futures"] }
serde-wasm-bindgen = "0.6"
console_error_panic_hook = "0.1"
tracing = "0.1"
tracing-wasm = "0.2"

[dependencies.web-sys]
version = "0.3"
features = ["CanvasRenderingContext2d", "Document", "Element", "Event", "EventTarget", "HtmlCanvasElement", "HtmlElement", "HtmlInputElement", "HtmlMediaElement", "HtmlSelectElement", "HtmlTextAreaElement", "HtmlVideoElement", "ImageData", "MediaDevices", "MediaStream", "MediaStreamConstraints", "MediaStreamTrack", "Navigator", "Response", "Storage", "Window"]
