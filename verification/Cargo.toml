[package]
name = "mikanos"
version = "0.1.0"
edition = "2021"
publish = false

[dependencies]
byteorder = { version = "=1.5.0", default-features = false }
clap = { version = "=4.6.7", features = ["derive"] }
log = "=0.4.35"
uefi = "=0.41.0"
