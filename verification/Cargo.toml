[package]
name = "qrkit"
version = "0.1.0"
edition = "2021"
publish = false

[dependencies]
rqrr = "0.10"
qrcode = "0.14"
serde = { version = "1", features = ["derive"] }
serde_json = "1"
png = "*"
wasm-bindgen = "*"
serde-wasm-bindgen = "*"
js-sys = "*"

[dev-dependencies]
