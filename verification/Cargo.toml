[package]
name = "mca_analyzer"
version = "0.1.0"
edition = "2021"
publish = false

[dependencies]
anvil-region = "*"
named-binary-tag = "*"
clap = "2"
image = "*"

[dev-dependencies]
bitstream-io = "*"
