[package]
name = "loa_mcts"
version = "0.1.0"
edition = "2021"
publish = false

[dependencies]
wbg-rand = "*"
wasm-bindgen = "*"
serde = { version = "*", features = ["derive"] }
serde_derive = "*"
