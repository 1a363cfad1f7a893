[package]
name = "hachimi_ura_plugin"
version = "0.1.0"
edition = "2021"
publish = false

[dependencies]
rmpv = "1"
