[package]
name = "linked"
version = "0.1.0"
edition = "2021"
publish = false

[dependencies]
anyhow = "1"
clap = "4"
copypasta = "*"
dirs = "*"

[dev-dependencies]
serde_json = "1"
