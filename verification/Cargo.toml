[package]
name = "wonnx_mobile"
version = "0.1.0"
edition = "2021"
publish = false

[dependencies]
futures = "*"
once_cell = "*"
wonnx = "*"
