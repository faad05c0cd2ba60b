[package]
name = "raytracer"
version = "0.1.0"
edition = "2021"
publish = false

[dependencies]
rand = "0.8"
nalgebra = "0.32"
roots = "0.0.8"
log = "0.4"
env_logger = { version = "0.10", default-features = false }
error-iter = "0.4"
image = { version = "0.24", default-features = false, features = ["png"] }
rhai = "1"
winit = "0.28"
imgui = "0.11"
imgui-winit-support = "0.11"
