[package]
name = "trustami"
version = "0.1.0"
edition = "2021"
publish = false

[dependencies]
anyhow = "*"
clap = { version = "*", features = ["derive"] }
dirs = "*"
quick-xml = "*"
thiserror = "*"
