[package]
name = "rust_rt"
version = "0.1.0"
edition = "2021"
publish = false

[dependencies]
rand = "0.8"
glm = "0.2"
num-traits = "0.2"
float-cmp = "0.8"
image = { version = "0.23", default-features = false, features = ["png", "jpeg"] }
serde = { version = "1", features = ["derive"] }
serde_json = "1"
tobj = "2"
sdl2 = "0.34"
gl = "0.14"
