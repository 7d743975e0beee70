[package]
name = "git_scrubber"
version = "0.1.0"
edition = "2021"
publish = false

[dependencies]
blake3 = "1"
hex = "0.4"
git2 = "*"
clap = { version = "3", features = ["derive"] }
indicatif = "0.16"
