[package]
name = "geotemporal_uuid"
version = "0.1.0"
edition = "2021"
publish = false

[dependencies]
chrono = "*"
rand = "*"
clap = { version = "*", features = ["derive"] }
wasm-bindgen = "*"
