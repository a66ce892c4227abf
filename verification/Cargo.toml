[package]
name = "dfp_number"
version = "0.1.0"
edition = "2021"
publish = false

[dependencies]
rust_decimal = { version = "*", features = ["maths"] }
rust_decimal_macros = "*"
