[package]
name = "colourblind_helper"
version = "0.1.0"
edition = "2021"
publish = false

[dependencies]
rand = "0.4"
image = { version = "0.24", default-features = false, features = ["png", "jpeg"] }
imageproc = { version = "0.23", default-features = false }
csv = "1"
itertools = "0.10"
