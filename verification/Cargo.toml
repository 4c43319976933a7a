[package]
name = "lex4oat"
version = "0.1.0"
edition = "2021"
publish = false

[dependencies]
clap = { version = "*", features = ["derive"] }
colored = "*"
env_logger = "*"
log = "*"
lrlex = "*"
lrpar = "*"
