[package]
name = "contest_vis"
version = "0.1.0"
edition = "2021"
publish = false

[dependencies]
proconio = "0.4"
svg = "*"
wasm-bindgen = "0.2"
web-sys = { version = "0.3", features = ["console"] }
