[package]
name = "matting"
version = "0.1.0"
edition = "2021"
publish = false

[dependencies]
anyhow = "1"
clap = { version = "4", features = ["derive"] }
ctrlc = "3"
half = "=2.7.1"
image = { version = "=0.25.10", default-features = false, features = ["bmp", "gif", "jpeg", "png", "tiff", "webp"] }
onnx-protobuf = "=0.2.3"
ort = { version = "=2.0.0-rc.15", default-features = false, features = ["half", "load-dynamic", "migraphx", "ndarray"] }
protobuf = "=3.4.0"
serde = { version = "1", features = ["derive"] }
serde_json = "1"
sha2 = "=0.10.9"
v4l = "0.14"
