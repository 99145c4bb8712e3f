[package]
name = "ridb"
version = "0.1.0"
edition = "2021"
publish = false

[dependencies]
aes-gcm = "*"
base64 = "*"
getrandom = "0.2"
hex = "*"
pbkdf2 = "*"
serde_json = "*"
sha3 = "*"
