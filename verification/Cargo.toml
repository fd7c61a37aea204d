[package]
name = "mod_bisect"
version = "0.1.0"
edition = "2021"
publish = false

[dependencies]
anyhow = "1"
clap = { version = "4", features = ["derive"] }
dialoguer = "*"
serde_json = "1"
toml = "*"
zip = { version = "*", default-features = false, features = ["deflate"] }
