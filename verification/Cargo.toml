[package]
name = "smoll_chat"
version = "0.1.0"
edition = "2021"
publish = false

[dependencies]
qrcode = "*"
local-ip-address = "*"
