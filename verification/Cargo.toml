[package]
name = "universal_gpx_poi"
version = "0.1.0"
edition = "2021"
publish = false

[dependencies]
quick-xml = "*"
wasm-bindgen = "*"
