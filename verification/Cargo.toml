[package]
name = "dropout-plugin"
version = "0.1.0"
edition = "2021"
publish = false

[dependencies]
truce = "0.64"
slint = { version = "=1.18.1", default-features = false, features = ["std", "compat-1-2"] }
