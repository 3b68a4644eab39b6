[package]
name = "wac_plug"
version = "0.1.0"
edition = "2021"
publish = false

[dependencies]
anyhow = "*"
clap = { version = "*", features = ["derive"] }
log = "*"
wac-graph = "*"
wac-types = "*"
warg-protocol = "*"
wasmprinter = "*"
