[package]
name = "inksmash"
version = "0.1.0"
edition = "2021"
publish = false

[dependencies]
base64 = "0.22"
md5 = "0.7"
regex = "1"
image = { version = "0.25", default-features = false, features = ["png", "jpeg", "gif", "bmp", "ico", "tiff", "webp"] }
webp = "0.3"
clap = { version = "4", features = ["derive"] }
rayon = "1"
