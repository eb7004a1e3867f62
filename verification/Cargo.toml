[package]
name = "inv_call_extract"
version = "0.1.0"
edition = "2021"

[dependencies]
fancy-regex = "*"
clap = { version = "*", features = ["derive"] }
colog = "*"
log = "*"
graphviz-rust = "*"
