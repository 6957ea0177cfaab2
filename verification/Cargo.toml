[package]
name = "docgarden"
version = "0.1.0"
edition = "2021"
publish = false

[dependencies]
anyhow = "1"
clap = { version = "4", features = ["derive"] }
github-slugger = "*"
ignore = "0.4"
markdown = "1"
percent-encoding = "2"
rust-stemmers = "1"
semver = "1"
serde = { version = "1", features = ["derive"] }
tiktoken-rs = "*"
toml = "*"
toml_edit = "*"
