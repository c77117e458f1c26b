[package]
name = "finiterain"
version = "0.1.0"
edition = "2021"
publish = false

[dependencies]
num-rational = "0.4"
num-traits = "0.2"
hex = "0.4"
anyhow = "1"
structopt = "0.3"
serde = { version = "1", features = ["derive"] }
serde_json = "1"
failure = "0.1"
lazy_static = "1"
libc = "0.2"
