[package]
name = "ply_locales"
version = "0.1.0"
edition = "2021"
publish = false

[dependencies]
fluent-bundle = "0.16"
fluent-syntax = "0.12"
unic-langid = "0.9"
syn = { version = "2", features = ["full"] }
quote = "1"
proc-macro2 = "1"
toml = "0.8"
