[package]
name = "oauth_sign"
version = "0.1.0"
edition = "2021"
publish = false

[dependencies]
rust-crypto = "*"
rustc-serialize = "*"
rand = "0.8"
time = "*"
curl = "*"
hmac = "*"
sha1 = "*"
base64 = "*"
