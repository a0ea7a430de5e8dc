[package]
name = "magicutil"
version = "0.1.0"
edition = "2021"
publish = false

[dependencies]
aes = "0.7"
base64 = "0.13"
clap = "4"
colored = "2"
local_ipaddress = "0.1"
mac_address = "1"
md5 = "0.7"
output_vt100 = "0.1"
pad = "0.1"
pwhash = "1"
serde = { version = "1", features = ["derive"] }
serde_json = "1"
