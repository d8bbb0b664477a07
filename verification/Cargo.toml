[package]
name = "sdf_tiles"
version = "0.1.0"
edition = "2021"
publish = false

[dependencies]
json = "*"
image = { version = "*", default-features = false, features = ["png"] }
