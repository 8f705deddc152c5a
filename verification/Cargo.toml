[package]
name = "deva"
version = "0.1.0"
edition = "2021"
publish = false

[dependencies]
indoc = "*"
structopt = "0.3"
