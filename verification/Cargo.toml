[package]
name = "intelhexlib"
version = "0.1.0"
edition = "2021"
publish = false

[dependencies]
regex = "1"

[dev-dependencies]
rand = "*"
