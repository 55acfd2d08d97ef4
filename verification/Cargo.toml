[package]
name = "ppocr"
version = "0.1.0"
edition = "2021"
publish = false

[dependencies]
anyhow = "1"
clap = { version = "4", features = ["derive", "env"] }
image = { version = "0.25", default-features = false, features = ["jpeg", "png"] }
rayon = "1"
rten-onnx = "*"
onnx-ir = "*"
protobuf = "3"
safetensors = "*"
serde = { version = "1", features = ["derive"] }
serde_json = "1"
