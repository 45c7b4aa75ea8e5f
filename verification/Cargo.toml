[package]
name = "onnx-explorer"
version = "0.1.0"
edition = "2021"
publish = false

[dependencies]
argh = "*"
eframe = { version = "*", default-features = false, features = ["default_fonts", "glow", "x11"] }
egui = "*"
rten-onnx = "*"
