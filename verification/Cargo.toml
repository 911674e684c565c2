[package]
name = "seastar"
version = "0.1.0"
edition = "2021"
publish = false

[dependencies]
md5 = "*"
shellexpand = "3"
git2 = "*"
walkdir = "2"
toml = "0.8"
serde = { version = "1", features = ["derive"] }
clap = { version = "4", features = ["derive"] }
indicatif = "0.17"
