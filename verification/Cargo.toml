[package]
name = "raytracer_core"
version = "0.1.0"
edition = "2021"
publish = false

[dependencies]
rand = { version = "0.7", features = ["small_rng"] }
nalgebra = "*"
log = "0.4"
winit = "*"
winit_input_helper = "*"
pixels = "*"
wasm-bindgen = "0.2"
console_error_panic_hook = "0.1"
