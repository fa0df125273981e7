[package]
name = "steganography"
version = "0.1.0"
edition = "2021"
publish = false

[dependencies]
rand = "0.9"
image = { version = "0.25", default-features = false, features = ["png"] }
clap = { version = "4", features = ["derive"] }
thiserror = "2"
