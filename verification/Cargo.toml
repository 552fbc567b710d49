[package]
name = "mypass"
version = "0.1.0"
edition = "2021"
publish = false

[dependencies]
sha2 = "*"
hmac = "*"
aes = "*"
chacha20 = "*"
argon2 = "*"
flate2 = "*"
rand = "*"
