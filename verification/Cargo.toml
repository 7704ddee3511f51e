[package]
name = "cs375_autograder"
version = "0.1.0"
edition = "2021"
publish = false

[dependencies]
ansi_term = "0.12"
anyhow = "1"
clap = { version = "3", features = ["derive"] }
difference = "2"
include_dir = "0.7"
zip = { version = "0.6", default-features = false, features = ["deflate"] }
