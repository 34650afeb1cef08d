[package]
name = "linkpatch"
version = "0.1.0"
edition = "2021"
publish = false

[dependencies]
clap = { version = "=4.6.7", features = ["derive"] }
object = { version = "0.36", default-features = false, features = ["read_core", "elf"] }
