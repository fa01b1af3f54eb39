[package]
name = "poketype"
version = "0.1.0"
edition = "2021"
publish = false

[dependencies]
anyhow = "*"
clap = { version = "*", features = ["derive"] }
rustemon = "*"
tokio = { version = "*", features = ["rt-multi-thread", "io-std", "io-util", "macros"] }
