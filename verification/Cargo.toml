[package]
name = "ofs"
version = "0.1.0"
edition = "2021"
publish = false

[dependencies]
anyhow = "1"
fuser = { version = "0.14", default-features = false }
libc = "0.2"
structopt = "0.3"
tracing = "0.1"
tracing-subscriber = "0.3"
