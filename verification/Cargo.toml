[package]
name = "bezier_curve"
version = "0.1.0"
edition = "2021"
publish = false

[dependencies]
pixels = "0.13"
winit = "0.28"
winit_input_helper = "0.14"
