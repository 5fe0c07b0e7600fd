[package]
name = "nordc"
version = "0.1.0"
edition = "2021"
publish = false

[dependencies]
anyhow = "*"
clap = { version = "*", features = ["derive"] }
color-eyre = "*"
eyre = "*"
id-arena = "=2.3.0"
logos = "*"
reedline = "*"
walrus = "=0.27.2"
wasmprinter = "=0.261.0"
wasmtime = "=48.0.5"
