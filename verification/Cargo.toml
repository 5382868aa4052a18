[package]
name = "bkm"
version = "0.1.0"
edition = "2021"
publish = false

[dependencies]
clap = "*"
dirs = "*"
rusqlite = { version = "*", features = ["bundled"] }
webbrowser = "*"
reqwest = { version = "*", default-features = false, features = ["blocking"] }
