[package]
name = "tue_raw"
version = "0.1.0"
edition = "2021"
publish = false

[dependencies]
byteorder = "1"
image = { version = "*", default-features = false, features = ["png"] }
notify = "4"
