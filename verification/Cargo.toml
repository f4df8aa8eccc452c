[package]
name = "rundown"
version = "0.1.0"
edition = "2021"
publish = false

[dependencies]
unescape = "0.1.0"
pulldown-cmark = { version = "0.9", default-features = false }
structopt = "0.3"
