[package]
name = "onnx-adapter"
version = "0.1.0"
edition = "2021"
publish = false

[dependencies]
prost = "0.14.4"
rand = "0.10"
serde = { version = "1", features = ["derive"] }
serde_json = "1"
ort = { version = "=2.0.0-rc.13", default-features = false, features = ["std", "load-dynamic"] }
tract-onnx = "0.23.4"
candle-core = "*"
candle-onnx = "*"
