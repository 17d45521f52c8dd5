[package]
name = "engine"
version = "0.1.0"
edition = "2021"
publish = false

[dependencies]
num-bigint = "0.4"
num-traits = "0.2"
serde = { version = "1", features = ["derive"] }
serde_json = "1"
schemars = "0.8"
structopt = "0.3"
clap = "2"
wasm-bindgen = "0.2"
js-sys = "0.3"
