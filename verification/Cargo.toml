[package]
name = "compiler"
version = "0.1.0"
edition = "2021"

[dependencies]
anyhow = "1"
structopt = "0.3"
