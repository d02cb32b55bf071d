[package]
name = "typdiff"
version = "0.1.0"
edition = "2021"
publish = false

[dependencies]
similar = "2"
typst-syntax = "*"
clap = { version = "4", features = ["derive"] }
anyhow = "1"
