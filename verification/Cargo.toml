[package]
name = "fastmod"
version = "0.1.0"
edition = "2021"
publish = false

[dependencies]
anyhow = "1"
clap = "*"
grep = "*"
regex = "1"
rprompt = "*"
