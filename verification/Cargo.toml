[package]
name = "wordle_clique"
version = "0.1.0"
edition = "2021"
publish = false

[dependencies]
clap = { version = "4", features = ["derive"] }
clio = { version = "*", features = ["clap-parse"] }
