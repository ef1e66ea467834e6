[package]
name = "sudoku_gen"
version = "0.1.0"
edition = "2021"
publish = false

[dependencies]
rand = "0.9"
clap = { version = "4", features = ["derive"] }
anyhow = "1"
thiserror = "2"
