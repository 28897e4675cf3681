[package]
name = "polygon"
version = "0.1.0"
edition = "2021"
publish = false

[dependencies]
clap = { version = "4", features = ["derive"] }
derive_more = "0.99"
itertools = "0.10"
rand = "0.8"
symm_impl = "*"
