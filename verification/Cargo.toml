[package]
name = "ijson_rust"
version = "0.1.0"
edition = "2021"
publish = false

[dependencies]
rustc-serialize = "0.3"
time = "0.1"
