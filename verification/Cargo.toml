[package]
name = "chesszero"
version = "0.1.0"
edition = "2021"
publish = false

[dependencies]
shakmaty = "=0.30.0"
safetensors = "=0.4.5"
serde_json = "=1.0.154"
candle-core = "=0.9.2"
candle-nn = "=0.9.2"
