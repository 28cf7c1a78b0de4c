[package]
name = "parsing-basics"
version = "0.1.0"
edition = "2021"
publish = false

[dependencies]
logos = "0.12"

[dev-dependencies]
unindent = "0.2"
