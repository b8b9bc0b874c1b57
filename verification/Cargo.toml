[package]
name = "panoloom"
version = "0.1.0"
edition = "2021"
publish = false

[dependencies]
jpeg-encoder = "0.6"
js-sys = "0.3"
nalgebra = "0.33"
rayon = "1"
serde = { version = "1", features = ["derive"] }
serde_json = "1"
wasm-bindgen = "0.2"
wasm-bindgen-rayon = "1"
