[package]
name = "arg_agg"
version = "0.1.0"
edition = "2021"
publish = false

[dependencies]
argminmax = { version = "*", default-features = false }
