[package]
name = "nonomaker_core"
version = "0.1.0"
edition = "2021"
publish = false

[dependencies]
splr = "0.17"
base64 = "0.22"
flate2 = "1"
serde = { version = "1", features = ["derive"] }
serde_json = "1"
clap = { version = "4", features = ["derive"] }
image = { version = "0.25", default-features = false, features = ["png"] }
imageproc = { version = "0.25", default-features = false }
wasm-bindgen = "0.2"
console_error_panic_hook = "0.1"
