[package]
name = "xleak"
version = "0.1.0"
edition = "2021"
publish = false

[dependencies]
anyhow = "*"
calamine = "*"
chrono = "*"
clap = { version = "*", features = ["derive"] }
crossterm = "*"
csv = "*"
dirs = "*"
prettytable-rs = "*"
serde = { version = "*", features = ["derive"] }
toml = "*"
