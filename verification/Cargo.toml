[package]
name = "rogit"
version = "0.1.0"
edition = "2021"
publish = false

[dependencies]
anyhow = "*"
clap = { version = "*", features = ["cargo"] }
git2 = "*"
rusqlite = { version = "*", features = ["bundled", "time"] }
time = "*"
walkdir = "*"
