[package]
name = "sudoku_smt"
version = "0.1.0"
edition = "2021"
publish = false

[dependencies]
z3 = "0.12"
serde_json = "1"
clap = { version = "4", features = ["derive"] }
