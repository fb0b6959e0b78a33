[package]
name = "kompo"
version = "0.1.0"
edition = "2021"
publish = false

[dependencies]
object = { version = "*", default-features = false, features = ["read", "write", "std"] }
clap = { version = "4", features = ["derive"] }
glob = "0.3"
