[package]
name = "shared_board"
version = "0.1.0"
edition = "2021"
publish = false

[dependencies]
postcard = { version = "1", features = ["use-std"] }
serde = { version = "1", features = ["derive"] }
serde_cbor = "0.11"
tokio = { version = "1", features = ["full"] }
axum = { version = "0.8", features = ["ws"] }
axum-extra = { version = "0.10", features = ["cookie"] }
axum-macros = "0.5"
futures-util = "0.3"
tower-http = { version = "0.6", features = ["fs"] }
tracing = "0.1"
tracing-subscriber = "0.3"
hmac = "0.12"
sha2 = "0.10"
jwt = "0.16"
rand = "0.9"
wasm-bindgen = "0.2"
web-sys = "0.3"
console_error_panic_hook = "0.1"
console_log = "1"
log = "0.4"
image = { version = "0.25", default-features = false, features = ["png", "jpeg"] }
