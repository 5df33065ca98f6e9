[package]
name = "cask"
version = "0.1.0"
edition = "2021"
publish = false

[dependencies]
byteorder = "1"
fs2 = "0.4"
log = "0.4"
regex = "1"
time = "0.1"
twox-hash = { version = "1", default-features = false }
