[package]
name = "eoti"
version = "0.1.0"
edition = "2021"
publish = false

[dependencies]
roxmltree = "0.20"
clap = { version = "4", features = ["derive"] }
