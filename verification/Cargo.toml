[package]
name = "shell_bundler"
version = "0.1.0"
edition = "2021"
publish = false

[dependencies]
anyhow = "=1.0.104"
clap = { version = "=4.6.7", features = ["derive"] }

[dev-dependencies]
regex = "=1.13.1"
