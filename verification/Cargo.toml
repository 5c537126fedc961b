[package]
name = "reqwest_mock"
version = "0.1.0"
edition = "2021"
publish = false

[dependencies]
base64 = "*"
twox-hash = "*"
reqwest = { version = "*", default-features = false, features = ["blocking"] }
