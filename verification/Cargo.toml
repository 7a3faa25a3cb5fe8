[package]
name = "musefs-format"
version = "0.1.0"
edition = "2021"
publish = false

[dependencies]
base64 = "0.22"
id3 = "1"
thiserror = "2"

[dev-dependencies]
crc = "3"
