[package]
name = "game_physics"
version = "0.1.0"
edition = "2021"

[dependencies]
js-sys = "*"
wasm-bindgen = "*"
web-sys = { version = "*", features = ["console"] }
