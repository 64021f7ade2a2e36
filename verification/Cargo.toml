[package]
name = "nrtrt"
version = "0.1.0"
edition = "2021"
publish = false

[dependencies]
rand = "*"
image = { version = "*", default-features = false, features = ["png"] }
minifb = "*"
