[package]
name = "lean_parser"
version = "0.1.0"
edition = "2021"
publish = false

[dependencies]
dashmap = "*"
smallvec = "*"
clap = { version = "*", features = ["derive"] }
