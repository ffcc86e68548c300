[package]
name = "ait-lib"
version = "0.1.0"
edition = "2021"
publish = false

[dependencies]
sha2 = "0.10"
base64 = "0.22"
rmp-serde = "1"
serde = { version = "1", features = ["derive"] }
serde_with = "3"
thiserror = "1"
tap = "1"
js-sys = "0.3"
wasm-bindgen = "0.2"
wasm-bindgen-futures = "0.4"
web-sys = { version = "0.3", features = ["Window", "Storage", "console"] }
serde-wasm-bindgen = "0.6"
reqwest = { version = "0.12", default-features = false, features = ["json"] }
