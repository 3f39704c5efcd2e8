[package]
name = "bobpy"
version = "0.1.0"
edition = "2021"
publish = false

[dependencies]
clap = { version = "4", features = ["derive"] }
config = { version = "0.13", default-features = false, features = ["toml"] }
fs_extra = "1"
glob = "0.3"
uuid = { version = "1", features = ["v4"] }
