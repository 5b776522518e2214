[package]
name = "rtc_core"
version = "0.1.0"
edition = "2021"
publish = false

[dependencies]
aes = "0.9"
bytes = "1"
ccm = "0.6"
ctr = "0.10"
md-5 = "*"
memchr = "2"
rand = "0.9"
ring = "0.17"
wide = "1"
