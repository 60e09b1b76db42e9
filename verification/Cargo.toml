[package]
name = "sanbox"
version = "0.1.0"
edition = "2021"
publish = false

[dependencies]
fastrand = "2"
clap = { version = "4", features = ["derive"] }
crossterm = "*"
wasm-bindgen = "0.2"
console_error_panic_hook = "0.1"
