[package]
name = "flac_decoder"
version = "0.1.0"
edition = "2021"
publish = false

[dependencies]
bitstream-io = "*"
image = { version = "*", default-features = false, features = ["png", "jpeg"] }
