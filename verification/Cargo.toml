[package]
name = "wordcore"
version = "0.1.0"
edition = "2021"
publish = false

[dependencies]
unicode-segmentation = "=1.13.3"
lru = "=0.19.0"
flate2 = "=1.1.10"
serde = { version = "=1.0.229", features = ["derive"] }
serde_bytes = "=0.11.19"
serde-wasm-bindgen = "=0.6.5"
wasm-bindgen = "=0.2.130"
js-sys = "=0.3.107"
web-sys = { version = "0.3", features = ["OffscreenCanvas", "OffscreenCanvasRenderingContext2d", "ImageBitmap"] }
console_error_panic_hook = "0.1"
kurbo = "=0.13.1"

[dev-dependencies]
serde_json = "=1.0.154"
