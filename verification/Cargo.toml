[package]
name = "skiller"
version = "0.6.1"
edition = "2021"
publish = false

[dependencies]
anyhow = "1"
clap = { version = "4", features = ["derive"] }
crossterm = "0.29"
dirs = "6"
serde = { version = "1", features = ["derive"] }
serde_json = "1"
shellexpand = "3"
unicode-width = "0.2"
