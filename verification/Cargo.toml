[package]
name = "pluscodes"
version = "0.1.0"
edition = "2021"
publish = false

[dependencies]
anyhow = "1"
structopt = "0.3"

[dev-dependencies]
regex = "1"
