[package]
name = "commit_spell"
version = "0.1.0"
edition = "2021"
publish = false

[dependencies]
hunspell = "*"
tempfile = "*"
